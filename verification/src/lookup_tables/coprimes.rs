//! Which numbers below a thousand are coprime, kept as a graph.

use petgraph::graphmap::UnGraphMap;
use vstd::prelude::*;

use super::graph::{
    edge_key, graph_add_edge, graph_add_node, graph_clone, graph_contains_edge, graph_edges,
    graph_neighbors, graph_nodes, graph_remove_node, graph_with_capacity, linked,
};
use super::numbers::{common_divisor, coprime, gcd, is_gcd};
use super::primes::{is_prime, is_table_prime, PrimeTable};
use crate::combinations::{lemma_pairs_of, pair_combinations, pairs_of};

verus! {

/// The bound of the table: its numbers are 1 to 999.
pub const TABLE_LIMIT: usize = 1000;

/// Whether the table knows the number.
pub open spec fn in_table(number: usize) -> bool {
    1 <= number < TABLE_LIMIT
}

/// Whether the table joins the two numbers: both are numbers of the table,
/// and they are coprime. Of the numbers of the table only 1 is joined with
/// itself.
pub open spec fn coprime_pair(a: usize, b: usize) -> bool {
    in_table(a) && in_table(b) && coprime(a as nat, b as nat)
}

/// Whether the number is a composite number of the table: neither 1 nor a
/// prime.
pub open spec fn composite(number: usize) -> bool {
    in_table(number) && number != 1 && !is_prime(number as nat)
}

/// Whether the table of composites joins the two numbers: the table joins
/// them and both are composite.
pub open spec fn composite_coprime_pair(a: usize, b: usize) -> bool {
    coprime_pair(a, b) && composite(a) && composite(b)
}

/// Whether each number of the list is joined with every other one.
pub open spec fn all_coprime(numbers: Seq<usize>) -> bool {
    forall|i: int, j: int| 0 <= i < j < numbers.len() ==> coprime_pair(numbers[i], numbers[j])
}

/// Whether each number of the list is joined with every other one in the
/// table of composites.
pub open spec fn all_composite_coprime(numbers: Seq<usize>) -> bool {
    forall|i: int, j: int|
        0 <= i < j < numbers.len() ==> composite_coprime_pair(numbers[i], numbers[j])
}

/// Whether the graph is the graph of coprime numbers.
pub open spec fn is_coprime_graph(graph: UnGraphMap<usize, ()>) -> bool {
    &&& forall|number: usize| #[trigger] graph_nodes(graph).contains(number) <==> in_table(number)
    &&& forall|a: usize, b: usize| #[trigger]
        graph_edges(graph).contains((a, b)) <==> a <= b && coprime_pair(a, b)
}

/// Whether the graph is the graph of coprime composite numbers.
pub open spec fn is_composite_graph(graph: UnGraphMap<usize, ()>) -> bool {
    &&& forall|number: usize| #[trigger] graph_nodes(graph).contains(number) <==> composite(number)
    &&& forall|a: usize, b: usize| #[trigger]
        graph_edges(graph).contains((a, b)) <==> a <= b && composite_coprime_pair(a, b)
}

/// Being coprime does not depend on the order of the two numbers.
pub proof fn lemma_coprime_symmetric(a: nat, b: nat)
    ensures
        coprime(a, b) == coprime(b, a),
{
    if coprime(a, b) {
        assert forall|other: nat| #[trigger]
            common_divisor(other, b, a) implies other <= 1 by {
            assert(common_divisor(other, a, b));
        }
    }
    if coprime(b, a) {
        assert forall|other: nat| #[trigger]
            common_divisor(other, a, b) implies other <= 1 by {
            assert(common_divisor(other, b, a));
        }
    }
}

/// The table joins two of its numbers exactly when their greatest common
/// divisor is 1, and so a list of the two is a list of coprimes exactly
/// then.
pub proof fn lemma_joined_iff_gcd_is_one(a: usize, b: usize)
    requires
        in_table(a),
        in_table(b),
    ensures
        coprime_pair(a, b) <==> is_gcd(1, a as nat, b as nat),
        all_coprime(seq![a, b]) <==> is_gcd(1, a as nat, b as nat),
{
    let pair = seq![a, b];
    if all_coprime(pair) {
        assert(coprime_pair(pair[0], pair[1]));
    }
}

/// A number above 1 is not coprime to itself.
pub proof fn lemma_not_coprime_to_itself(number: nat)
    requires
        number > 1,
    ensures
        !coprime(number, number),
{
    assert(common_divisor(number, number, number));
}

/// In a graph of coprime numbers two numbers are linked exactly when the
/// table joins them.
pub proof fn lemma_coprime_graph_links(graph: UnGraphMap<usize, ()>)
    requires
        is_coprime_graph(graph),
    ensures
        forall|a: usize, b: usize| #[trigger] linked(graph, a, b) <==> coprime_pair(a, b),
{
    assert forall|a: usize, b: usize| #[trigger] linked(graph, a, b) <==> coprime_pair(a, b) by {
        lemma_coprime_symmetric(a as nat, b as nat);
        if a <= b {
            assert(graph_edges(graph).contains((a, b)) <==> a <= b && coprime_pair(a, b));
        } else {
            assert(graph_edges(graph).contains((b, a)) <==> b <= a && coprime_pair(b, a));
        }
    }
}

/// In a graph of coprime composite numbers two numbers are linked exactly
/// when the table of composites joins them.
pub proof fn lemma_composite_graph_links(graph: UnGraphMap<usize, ()>)
    requires
        is_composite_graph(graph),
    ensures
        forall|a: usize, b: usize| #[trigger]
            linked(graph, a, b) <==> composite_coprime_pair(a, b),
{
    assert forall|a: usize, b: usize| #[trigger]
        linked(graph, a, b) <==> composite_coprime_pair(a, b) by {
        lemma_coprime_symmetric(a as nat, b as nat);
        if a <= b {
            assert(graph_edges(graph).contains((a, b)) <==> a <= b && composite_coprime_pair(a, b));
        } else {
            assert(graph_edges(graph).contains((b, a)) <==> b <= a && composite_coprime_pair(b, a));
        }
    }
}

/// A table of all Co-Primes and their relations
pub struct CoprimesTable {
    coprimes: UnGraphMap<usize, ()>,
    composite_coprimes: UnGraphMap<usize, ()>,
}

/// The graph of the coprime numbers below a thousand.
fn build_coprimes() -> (graph: UnGraphMap<usize, ()>)
    ensures
        is_coprime_graph(graph),
{
    // Generate all coprimes up to 1000
    let mut all_coprimes = graph_with_capacity(1024, 1024);
    // Go through every number from 1 to 1000
    let mut num: usize = 1;
    while num < TABLE_LIMIT
        invariant
            1 <= num <= TABLE_LIMIT,
            forall|n: usize| #[trigger] graph_nodes(all_coprimes).contains(n) <==> 1 <= n < num,
            forall|a: usize, b: usize| #[trigger]
                graph_edges(all_coprimes).contains((a, b)) <==> a <= b < num && coprime_pair(a, b),
        decreases TABLE_LIMIT - num,
    {
        // Add this number as a node, it should not exist already
        graph_add_node(&mut all_coprimes, num);
        // Check all numbers up to this one; only 1 is coprime to itself
        let mut other_num: usize = 1;
        while other_num <= num
            invariant
                1 <= other_num <= num + 1,
                num < TABLE_LIMIT,
                forall|n: usize| #[trigger] graph_nodes(all_coprimes).contains(n) <==> 1 <= n <= num,
                forall|a: usize, b: usize| #[trigger]
                    graph_edges(all_coprimes).contains((a, b)) <==> (a <= b < num && coprime_pair(
                        a,
                        b,
                    )) || (b == num && a < other_num && coprime_pair(a, b)),
            decreases num + 1 - other_num,
        {
            // Check if the greatest common divisor is one, therefore they are coprimes
            let divisor = gcd(num, other_num);
            proof {
                lemma_coprime_symmetric(num as nat, other_num as nat);
            }
            if divisor == 1 {
                // Add this number relation
                graph_add_edge(&mut all_coprimes, num, other_num);
                assert(edge_key(num, other_num) == (other_num, num));
            }
            other_num += 1;
        }
        num += 1;
    }
    all_coprimes
}

/// The graph of the coprime composite numbers below a thousand.
fn build_composite_coprimes(coprimes: &UnGraphMap<usize, ()>) -> (graph: UnGraphMap<usize, ()>)
    requires
        is_coprime_graph(*coprimes),
    ensures
        is_composite_graph(graph),
{
    // Filter out the primes from the coprime table
    let mut composite_coprimes = graph_clone(coprimes);
    // Remove one, it literally binds with everything and has no use
    graph_remove_node(&mut composite_coprimes, 1);
    let primes = PrimeTable::primes();
    let mut i: usize = 0;
    while i < primes.len()
        invariant
            i <= primes.len(),
            forall|number: usize| primes@.contains(number) <==> is_table_prime(number as nat),
            forall|n: usize| #[trigger]
                graph_nodes(composite_coprimes).contains(n) <==> in_table(n) && n != 1
                    && !primes@.subrange(0, i as int).contains(n),
            forall|a: usize, b: usize| #[trigger]
                graph_edges(composite_coprimes).contains((a, b)) <==> a <= b && coprime_pair(a, b)
                    && a != 1 && b != 1 && !primes@.subrange(0, i as int).contains(a)
                    && !primes@.subrange(0, i as int).contains(b),
        decreases primes.len() - i,
    {
        let prime = primes[i];
        let ghost before = primes@.subrange(0, i as int);
        let ghost after = primes@.subrange(0, i + 1);
        let ghost old_graph = composite_coprimes;
        graph_remove_node(&mut composite_coprimes, prime);
        proof {
            assert(after =~= before.push(prime));
            assert forall|n: usize| after.contains(n) <==> before.contains(n) || n == prime by {
                if before.contains(n) {
                    let k = choose|k: int| 0 <= k < before.len() && before[k] == n;
                    assert(after[k] == n);
                }
                if n == prime {
                    assert(after[i as int] == n);
                }
            }
            assert forall|n: usize| #[trigger]
                graph_nodes(composite_coprimes).contains(n) <==> in_table(n) && n != 1
                    && !after.contains(n) by {
                assert(graph_nodes(composite_coprimes).contains(n) <==> graph_nodes(
                    old_graph,
                ).contains(n) && n != prime);
            }
            assert forall|a: usize, b: usize| #[trigger]
                graph_edges(composite_coprimes).contains((a, b)) <==> a <= b && coprime_pair(a, b)
                    && a != 1 && b != 1 && !after.contains(a) && !after.contains(b) by {
                assert(graph_edges(composite_coprimes).contains((a, b)) <==> graph_edges(
                    old_graph,
                ).contains((a, b)) && a != prime && b != prime);
            }
        }
        i += 1;
    }
    proof {
        assert(primes@.subrange(0, i as int) =~= primes@);
        assert forall|number: usize| #[trigger]
            graph_nodes(composite_coprimes).contains(number) <==> composite(number) by {
            assert(primes@.contains(number) <==> is_table_prime(number as nat));
        }
        assert forall|a: usize, b: usize| #[trigger]
            graph_edges(composite_coprimes).contains((a, b)) <==> a <= b
                && composite_coprime_pair(a, b) by {
            assert(primes@.contains(a) <==> is_table_prime(a as nat));
            assert(primes@.contains(b) <==> is_table_prime(b as nat));
        }
    }
    composite_coprimes
}

impl CoprimesTable {
    /// The two graphs of the table hold what their names say.
    #[verifier::type_invariant]
    pub closed spec fn well_formed(self) -> bool {
        is_coprime_graph(self.coprimes) && is_composite_graph(self.composite_coprimes)
    }

    /// The graph of the coprime numbers that the table holds.
    pub closed spec fn graph(&self) -> UnGraphMap<usize, ()> {
        self.coprimes
    }

    /// The graph of the coprime composite numbers that the table holds.
    pub closed spec fn composite_graph(&self) -> UnGraphMap<usize, ()> {
        self.composite_coprimes
    }

    /// Builds the table: the graph of all coprime numbers from 1 to 999, and
    /// the part of it that joins composite numbers.
    pub fn new() -> (table: Self)
        ensures
            is_coprime_graph(table.graph()),
            is_composite_graph(table.composite_graph()),
    {
        let coprimes = build_coprimes();
        let composite_coprimes = build_composite_coprimes(&coprimes);
        Self { coprimes, composite_coprimes }
    }

    /// The graph that joins the coprime numbers from 1 to 999.
    pub fn coprimes(&self) -> (graph: &UnGraphMap<usize, ()>)
        ensures
            *graph == self.graph(),
            is_coprime_graph(*graph),
    {
        proof {
            use_type_invariant(self);
        }
        &self.coprimes
    }

    /// The graph that joins the coprime composite numbers below a thousand.
    pub fn composite_coprimes(&self) -> (graph: &UnGraphMap<usize, ()>)
        ensures
            *graph == self.composite_graph(),
            is_composite_graph(*graph),
    {
        proof {
            use_type_invariant(self);
        }
        &self.composite_coprimes
    }

    /// Get all composite coprimes of a number, returns None if the number is 1 or a prime itself
    pub fn composite_coprimes_of(&self, number: usize) -> (partners: Option<Vec<usize>>)
        ensures
            partners is None <==> number == 1 || is_table_prime(number as nat),
            partners matches Some(list) ==> list@.no_duplicates() && forall|other: usize|
                list@.contains(other) <==> composite_coprime_pair(number, other),
    {
        if number == 1 || PrimeTable::is_prime(number) {
            return None;
        }
        proof {
            use_type_invariant(self);
            lemma_composite_graph_links(self.composite_coprimes);
        }
        // Get composite coprime table
        Some(graph_neighbors(&self.composite_coprimes, number))
    }

    /// Checks if all numbers are composite coprimes with each other
    pub fn are_composite_coprimes(&self, numbers: &[usize]) -> (all: bool)
        ensures
            all == all_composite_coprime(numbers@),
    {
        proof {
            use_type_invariant(self);
            lemma_composite_graph_links(self.composite_coprimes);
            lemma_pairs_of(numbers@);
        }
        // Go through all combinations of the numbers
        let pairs = pair_combinations(numbers);
        let mut k: usize = 0;
        while k < pairs.len()
            invariant
                k <= pairs.len(),
                pairs@ == pairs_of(numbers@),
                forall|a: usize, b: usize| #[trigger]
                    linked(self.composite_coprimes, a, b) <==> composite_coprime_pair(a, b),
                forall|n: int|
                    0 <= n < k ==> composite_coprime_pair((#[trigger] pairs@[n]).0, pairs@[n].1),
            decreases pairs.len() - k,
        {
            let (a, b) = pairs[k];
            // Check if there is an edge between a and b
            if !graph_contains_edge(&self.composite_coprimes, a, b) {
                // These are not coprime, so return false
                proof {
                    lemma_pairs_of(numbers@);
                    assert(pairs@[k as int] == (a, b));
                    assert(pairs_of(numbers@).contains((a, b)));
                    let (i, j) = choose|i: int, j: int|
                        0 <= i < j < numbers@.len() && numbers@[i] == a && numbers@[j] == b;
                    assert(numbers@[i] == a && numbers@[j] == b);
                }
                return false;
            }
            k += 1;
        }
        proof {
            assert forall|i: int, j: int| 0 <= i < j < numbers@.len() implies composite_coprime_pair(
                numbers@[i],
                numbers@[j],
            ) by {
                assert(pairs@.contains((numbers@[i], numbers@[j])));
                let n = choose|n: int| 0 <= n < pairs@.len() && pairs@[n] == (numbers@[i], numbers@[j]);
                assert(composite_coprime_pair(pairs@[n].0, pairs@[n].1));
            }
        }
        true
    }

    /// Get all coprimes of a number
    pub fn coprimes_of(&self, number: usize) -> (partners: Vec<usize>)
        ensures
            partners@.len() >= 1,
            partners@.last() == 1,
            partners@.drop_last().no_duplicates(),
            forall|other: usize|
                partners@.drop_last().contains(other) <==> coprime_pair(number, other),
    {
        proof {
            use_type_invariant(self);
            lemma_coprime_graph_links(self.coprimes);
        }
        // Get coprime table
        let mut partners = graph_neighbors(&self.coprimes, number);
        let ghost neighbors = partners@;
        partners.push(1);
        assert(partners@.drop_last() =~= neighbors);
        partners
    }

    /// Checks if all numbers are coprimes with each other
    pub fn are_coprimes(&self, numbers: &[usize]) -> (all: bool)
        ensures
            all == all_coprime(numbers@),
    {
        proof {
            use_type_invariant(self);
            lemma_coprime_graph_links(self.coprimes);
            lemma_pairs_of(numbers@);
        }
        // Go through all combinations of the numbers
        let pairs = pair_combinations(numbers);
        let mut k: usize = 0;
        while k < pairs.len()
            invariant
                k <= pairs.len(),
                pairs@ == pairs_of(numbers@),
                forall|a: usize, b: usize| #[trigger]
                    linked(self.coprimes, a, b) <==> coprime_pair(a, b),
                forall|n: int| 0 <= n < k ==> coprime_pair((#[trigger] pairs@[n]).0, pairs@[n].1),
            decreases pairs.len() - k,
        {
            let (a, b) = pairs[k];
            // Check if there is an edge between a and b
            if !graph_contains_edge(&self.coprimes, a, b) {
                // These are not coprime, so return false
                proof {
                    lemma_pairs_of(numbers@);
                    assert(pairs@[k as int] == (a, b));
                    assert(pairs_of(numbers@).contains((a, b)));
                    let (i, j) = choose|i: int, j: int|
                        0 <= i < j < numbers@.len() && numbers@[i] == a && numbers@[j] == b;
                    assert(numbers@[i] == a && numbers@[j] == b);
                }
                return false;
            }
            k += 1;
        }
        proof {
            assert forall|i: int, j: int| 0 <= i < j < numbers@.len() implies coprime_pair(
                numbers@[i],
                numbers@[j],
            ) by {
                assert(pairs@.contains((numbers@[i], numbers@[j])));
                let n = choose|n: int| 0 <= n < pairs@.len() && pairs@[n] == (numbers@[i], numbers@[j]);
                assert(coprime_pair(pairs@[n].0, pairs@[n].1));
            }
        }
        true
    }
}

} // verus!

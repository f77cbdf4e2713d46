use the_finale::lookup_tables::coprimes::CoprimesTable;
use the_finale::lookup_tables::primes::PrimeTable;
use the_finale::lookup_tables::pythagorean_triples::{PythagoreanTriple, PythagoreanTriplesTable};
use the_finale::lookup_tables::square::SquareTable;
use the_finale::lookup_tables::triangular::TriangularTable;

fn plain_gcd(a: usize, b: usize) -> usize {
    if b == 0 {
        a
    } else {
        plain_gcd(b, a % b)
    }
}

#[test]
fn primes_below_a_thousand() {
    let primes = PrimeTable::primes();
    assert_eq!(primes.len(), 168);
    assert_eq!(&primes[..10], &[2, 3, 5, 7, 11, 13, 17, 19, 23, 29]);
    assert_eq!(primes[167], 997);
    assert!(primes.windows(2).all(|pair| pair[0] < pair[1]));
    for number in 0..1100usize {
        assert_eq!(PrimeTable::is_prime(number), primes.contains(&number));
    }
    assert!(!PrimeTable::is_prime(0));
    assert!(!PrimeTable::is_prime(1));
    assert!(PrimeTable::is_prime(2));
    assert!(!PrimeTable::is_prime(91));
    assert!(PrimeTable::is_prime(997));
    // 1009 is prime but beyond the table
    assert!(!PrimeTable::is_prime(1009));
}

#[test]
fn squares_of_one_to_forty_four() {
    let squares = SquareTable::squares();
    assert_eq!(squares.len(), 44);
    assert_eq!(&squares[..5], &[1, 4, 9, 16, 25]);
    assert_eq!(squares[43], 1936);
    for number in 0..2100usize {
        assert_eq!(SquareTable::is_square(number), squares.contains(&number));
    }
    assert!(!SquareTable::is_square(0));
    assert!(SquareTable::is_square(1));
    assert!(SquareTable::is_square(169));
    assert!(!SquareTable::is_square(170));
    assert!(SquareTable::is_square(1936));
    // the square of 45 is beyond the table
    assert!(!SquareTable::is_square(2025));
}

#[test]
fn triangular_numbers_below_a_thousand() {
    let expected: [usize; 44] = [
        1, 3, 6, 10, 15, 21, 28, 36, 45, 55, 66, 78, 91, 105, 120, 136, 153, 171, 190, 210, 231,
        253, 276, 300, 325, 351, 378, 406, 435, 465, 496, 528, 561, 595, 630, 666, 703, 741, 780,
        820, 861, 903, 946, 990,
    ];
    assert_eq!(TriangularTable::triangulars(), expected.to_vec());
    for number in 0..1100usize {
        assert_eq!(TriangularTable::is_triangular(number), expected.contains(&number));
    }
    assert!(!TriangularTable::is_triangular(0));
    assert!(TriangularTable::is_triangular(990));
    // the next triangular number is beyond the table
    assert!(!TriangularTable::is_triangular(1035));
}

#[test]
fn coprimes_agree_with_gcd() {
    let table = CoprimesTable::new();
    for a in 1..1000usize {
        for b in [1usize, 2, 3, 4, 9, 15, 35, 77, 100, 221, 499, 512, 998, 999] {
            assert_eq!(table.are_coprimes(&[a, b]), plain_gcd(a, b) == 1, "{} {}", a, b);
            assert_eq!(table.are_coprimes(&[b, a]), plain_gcd(a, b) == 1, "{} {}", b, a);
        }
    }
    // of all numbers only 1 is coprime to itself
    assert!(table.are_coprimes(&[1, 1]));
    assert!(table.are_coprimes(&[1, 1, 1]));
    assert!(!table.are_coprimes(&[2, 2]));
    assert!(!table.are_coprimes(&[7, 7]));
    assert!(!table.are_coprimes(&[999, 999]));
    // numbers beyond the table are joined with nothing
    assert!(!table.are_coprimes(&[0, 1]));
    assert!(!table.are_coprimes(&[1000, 1]));
    assert!(!table.are_coprimes(&[1001, 7]));
}

#[test]
fn coprimes_of_lists_look_at_every_pair() {
    let table = CoprimesTable::new();
    assert!(table.are_coprimes(&[]));
    assert!(table.are_coprimes(&[12]));
    assert!(table.are_coprimes(&[4, 9, 25]));
    assert!(table.are_coprimes(&[4, 9, 25, 49, 11]));
    // the last two share 5
    assert!(!table.are_coprimes(&[4, 9, 25, 35]));
    // the first and the last share 2
    assert!(!table.are_coprimes(&[4, 9, 25, 14]));
    assert!(!table.are_coprimes(&[9, 15]));
    assert!(!table.are_coprimes(&[9, 4, 15]));
}

#[test]
fn composite_coprimes_leave_out_one_and_primes() {
    let table = CoprimesTable::new();
    assert!(table.are_composite_coprimes(&[4, 9]));
    assert!(table.are_composite_coprimes(&[9, 25, 49]));
    assert!(table.are_composite_coprimes(&[]));
    assert!(!table.are_composite_coprimes(&[9, 15]));
    assert!(!table.are_composite_coprimes(&[9, 15, 49]));
    // coprime, but 7 is prime
    assert!(table.are_coprimes(&[4, 7]));
    assert!(!table.are_composite_coprimes(&[4, 7]));
    // coprime, but 1 is no composite
    assert!(table.are_coprimes(&[1, 4]));
    assert!(!table.are_composite_coprimes(&[1, 4]));
    assert!(!table.are_composite_coprimes(&[4, 4]));
}

#[test]
fn partners_of_a_number() {
    let table = CoprimesTable::new();
    assert_eq!(table.composite_coprimes_of(1), None);
    assert_eq!(table.composite_coprimes_of(7), None);
    assert_eq!(table.composite_coprimes_of(997), None);
    let mut of_six = table.composite_coprimes_of(6).unwrap();
    of_six.sort();
    let mut expected: Vec<usize> = (4..1000usize)
        .filter(|&n| plain_gcd(n, 6) == 1 && !PrimeTable::is_prime(n))
        .collect();
    expected.sort();
    assert_eq!(of_six, expected);
    assert_eq!(of_six[0], 25);

    // 1 is its own partner, and is listed once more at the end
    let mut of_one = table.coprimes_of(1);
    assert_eq!(of_one.pop(), Some(1));
    of_one.sort();
    assert_eq!(of_one, (1..1000usize).collect::<Vec<usize>>());

    let partners = table.coprimes_of(6);
    assert_eq!(*partners.last().unwrap(), 1);
    let mut sorted = partners[..partners.len() - 1].to_vec();
    sorted.sort();
    let expected: Vec<usize> = (1..1000usize).filter(|&n| plain_gcd(n, 6) == 1).collect();
    assert_eq!(sorted, expected);
}

#[test]
fn triples_are_pythagorean_and_sorted() {
    let coprimes = CoprimesTable::new();
    let table = PythagoreanTriplesTable::new(&coprimes);
    let triples = table.triples();
    // every primitive triple with sides below a thousand, the odd leg first
    let mut expected = Vec::new();
    for a in (1..1000usize).step_by(2) {
        for b in (2..1000usize).step_by(2) {
            let c = ((a * a + b * b) as f64).sqrt().round() as usize;
            if c <= 999 && c * c == a * a + b * b && plain_gcd(a, b) == 1 {
                expected.push(PythagoreanTriple(a, b, c));
            }
        }
    }
    assert_eq!(*triples, expected);
    assert_eq!(triples.len(), 158);
    assert_eq!(triples[0], PythagoreanTriple(3, 4, 5));
    for triple in triples.iter() {
        assert_eq!(triple.0 * triple.0 + triple.1 * triple.1, triple.2 * triple.2);
        assert!(triple.2 < 1000);
        let PythagoreanTriple(a, b, c) = *triple;
        for order in [[a, b, c], [a, c, b], [b, a, c], [b, c, a], [c, a, b], [c, b, a]] {
            assert!(table.is_triple(order));
        }
        assert!(table.contains(*triple));
        assert!(!table.contains(PythagoreanTriple(b, a, c)));
    }
}

#[test]
fn is_triple_knows_primitive_triples_only() {
    let coprimes = CoprimesTable::new();
    let table = PythagoreanTriplesTable::new(&coprimes);
    assert!(table.is_triple([3, 4, 5]));
    assert!(table.is_triple([5, 3, 4]));
    assert!(table.is_triple([13, 12, 5]));
    assert!(table.is_triple([20, 21, 29]));
    assert!(!table.is_triple([3, 4, 6]));
    assert!(!table.is_triple([3, 3, 5]));
    assert!(!table.is_triple([0, 0, 0]));
    // a multiple of a triple is none of the table
    assert!(!table.is_triple([6, 8, 10]));
    // the longest side may be as long as 999
    assert!(table.is_triple([43, 924, 925]));
    assert!(table.is_triple([925, 43, 924]));
    // Pythagorean, but the longest side is beyond the table
    assert!(!table.is_triple([65, 2112, 2113]));
}

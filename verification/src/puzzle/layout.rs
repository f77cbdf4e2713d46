//! The part of a puzzle that never changes: its size, where the named
//! fields start and where the walls stand.
//!
//! Both tables are hash maps of `hashbrown`. Verus cannot look inside them,
//! so each is held in a struct of its own, its contents have a name, and the
//! few calls that reach into a map are the only statements here that rest on
//! `hashbrown` rather than on a proof.

use vstd::prelude::*;

use super::position::{GridPosition, IdentifierVector, PuzzleDirection, PuzzleIdentifier};
use super::wall::WallDirection;

verus! {

/// Where each named field starts: identifier to (column, row).
#[verifier::external_body]
#[derive(Debug)]
pub struct AnchorTable {
    inner: hashbrown::HashMap<usize, (usize, usize)>,
}

/// The walls of the grid: (column, row) of a cell to the wall that stands there.
#[verifier::external_body]
#[derive(Debug)]
pub struct WallTable {
    inner: hashbrown::HashMap<(usize, usize), WallDirection>,
}

/// The entries that an `AnchorTable` holds.
pub uninterp spec fn anchor_entries(table: AnchorTable) -> Map<usize, (usize, usize)>;

/// The entries that a `WallTable` holds.
pub uninterp spec fn wall_entries(table: WallTable) -> Map<(usize, usize), WallDirection>;

/// The map that a list of (identifier, anchor) pairs describes. Where an
/// identifier occurs twice, the later pair stands.
pub open spec fn anchors_of(pairs: Seq<(PuzzleIdentifier, GridPosition)>) -> Map<
    usize,
    (usize, usize),
>
    decreases pairs.len(),
{
    if pairs.len() == 0 {
        Map::empty()
    } else {
        anchors_of(pairs.drop_last()).insert(
            pairs.last().0.0,
            (pairs.last().1.column, pairs.last().1.row),
        )
    }
}

/// The map that a list of (position, wall) pairs describes. Where a position
/// occurs twice, the later pair stands.
pub open spec fn walls_of(pairs: Seq<(GridPosition, WallDirection)>) -> Map<
    (usize, usize),
    WallDirection,
>
    decreases pairs.len(),
{
    if pairs.len() == 0 {
        Map::empty()
    } else {
        walls_of(pairs.drop_last()).insert(
            (pairs.last().0.column, pairs.last().0.row),
            pairs.last().1,
        )
    }
}

/// Collects the pairs into a `hashbrown::HashMap` through its `FromIterator`,
/// which inserts them one after the other, so that a later pair replaces an
/// earlier one with the same identifier.
#[verifier::external_body]
fn anchors_from_pairs(pairs: Vec<(PuzzleIdentifier, GridPosition)>) -> (table: AnchorTable)
    ensures
        anchor_entries(table) == anchors_of(pairs@),
{
    AnchorTable { inner: pairs.into_iter().map(|(i, p)| (i.0, (p.column, p.row))).collect() }
}

/// Calls `hashbrown::HashMap::get`: the value stored under the identifier, if
/// there is one.
#[verifier::external_body]
fn anchor_get(table: &AnchorTable, identifier: usize) -> (anchor: Option<(usize, usize)>)
    ensures
        anchor == (if anchor_entries(*table).contains_key(identifier) {
            Some(anchor_entries(*table)[identifier])
        } else {
            None
        }),
{
    table.inner.get(&identifier).copied()
}

/// Calls `hashbrown::HashMap::keys`: every identifier of the table once, in
/// an order that nothing is said about.
#[verifier::external_body]
fn anchor_keys(table: &AnchorTable) -> (keys: Vec<usize>)
    ensures
        keys@.no_duplicates(),
        forall|k: usize| keys@.contains(k) <==> anchor_entries(*table).contains_key(k),
{
    table.inner.keys().copied().collect()
}

/// Collects the pairs into a `hashbrown::HashMap` through its `FromIterator`,
/// which inserts them one after the other, so that a later pair replaces an
/// earlier one at the same position.
#[verifier::external_body]
fn walls_from_pairs(pairs: Vec<(GridPosition, WallDirection)>) -> (table: WallTable)
    ensures
        wall_entries(table) == walls_of(pairs@),
{
    WallTable { inner: pairs.into_iter().map(|(p, w)| ((p.column, p.row), w)).collect() }
}

/// Calls `hashbrown::HashMap::get`: the wall stored at the cell, if there is
/// one.
#[verifier::external_body]
fn wall_get(table: &WallTable, column: usize, row: usize) -> (wall: Option<WallDirection>)
    ensures
        wall == (if wall_entries(*table).contains_key((column, row)) {
            Some(wall_entries(*table)[(column, row)])
        } else {
            None
        }),
{
    table.inner.get(&(column, row)).copied()
}

/// Calls `hashbrown::HashMap::keys`: every walled cell of the table once, in
/// an order that nothing is said about.
#[verifier::external_body]
fn wall_keys(table: &WallTable) -> (keys: Vec<(usize, usize)>)
    ensures
        keys@.no_duplicates(),
        forall|k: (usize, usize)| keys@.contains(k) <==> wall_entries(*table).contains_key(k),
{
    table.inner.keys().copied().collect()
}

/// The layout as mathematics.
pub struct LayoutView {
    pub num_columns: usize,
    pub num_rows: usize,
    pub anchors: Map<usize, (usize, usize)>,
    pub walls: Map<(usize, usize), WallDirection>,
}

impl LayoutView {
    /// Whether the position is a cell of the grid.
    pub open spec fn in_grid(self, position: GridPosition) -> bool {
        position.column < self.num_columns && position.row < self.num_rows
    }

    /// The place of a cell in the row-major array of digits.
    pub open spec fn index_of(self, position: GridPosition) -> int {
        position.column + position.row * self.num_columns
    }

    /// Whether the identifier names a field.
    pub open spec fn declares(self, identifier: PuzzleIdentifier) -> bool {
        self.anchors.contains_key(identifier.0)
    }

    /// The first cell of the fields that the identifier names.
    pub open spec fn anchor(self, identifier: PuzzleIdentifier) -> GridPosition {
        GridPosition {
            column: self.anchors[identifier.0].0,
            row: self.anchors[identifier.0].1,
        }
    }

    /// Whether every declared identifier starts on a cell of the grid.
    pub open spec fn anchors_in_grid(self) -> bool {
        forall|identifier: PuzzleIdentifier| #[trigger]
            self.declares(identifier) ==> self.in_grid(self.anchor(identifier))
    }

    /// Whether the vector names a field that starts on the grid.
    pub open spec fn has_field(self, vector: IdentifierVector) -> bool {
        self.declares(vector.identifier) && self.in_grid(self.anchor(vector.identifier))
    }

    /// Whether each vector of the list names a field that starts on the
    /// grid.
    pub open spec fn has_fields(self, vectors: Seq<IdentifierVector>) -> bool {
        forall|i: int| 0 <= i < vectors.len() ==> self.has_field(#[trigger] vectors[i])
    }

    /// The position of the cell that comes `offset` cells after the anchor
    /// of the field.
    pub open spec fn cell(self, vector: IdentifierVector, offset: nat) -> GridPosition {
        self.anchor(vector.identifier).advance(vector.direction, offset)
    }

    /// The number of cells of a field: the cells from its anchor up to and
    /// with the first one at which the run is blocked, three at most.
    pub open spec fn field_length(self, vector: IdentifierVector) -> nat {
        if self.blocked(self.cell(vector, 0), vector.direction) {
            1
        } else if self.blocked(self.cell(vector, 1), vector.direction) {
            2
        } else {
            3
        }
    }

    /// Cells of the grid have places of their own in the array of digits.
    pub proof fn lemma_index_in_range(self, position: GridPosition)
        requires
            self.in_grid(position),
        ensures
            0 <= self.index_of(position) < self.num_columns * self.num_rows,
    {
        assert(position.row * self.num_columns + self.num_columns <= self.num_rows
            * self.num_columns) by (nonlinear_arith)
            requires
                position.row < self.num_rows,
        ;
        assert(self.num_rows * self.num_columns == self.num_columns * self.num_rows)
            by (nonlinear_arith);
    }

    /// Two cells of the grid with the same place in the array of digits are
    /// the same cell.
    pub proof fn lemma_index_decides_cell(self, a: GridPosition, b: GridPosition)
        requires
            self.in_grid(a),
            self.in_grid(b),
            self.index_of(a) == self.index_of(b),
        ensures
            a == b,
    {
        if a.row < b.row {
            assert(a.row * self.num_columns + self.num_columns <= b.row * self.num_columns)
                by (nonlinear_arith)
                requires
                    a.row < b.row,
            ;
        } else if b.row < a.row {
            assert(b.row * self.num_columns + self.num_columns <= a.row * self.num_columns)
                by (nonlinear_arith)
                requires
                    b.row < a.row,
            ;
        }
    }

    /// Whether a run that has reached `position` ends there: a wall at the
    /// cell stops travel in `direction`, or the next cell is off the grid.
    pub open spec fn blocked(self, position: GridPosition, direction: PuzzleDirection) -> bool {
        ||| self.walls.contains_key((position.column, position.row)) && self.walls[(
            position.column,
            position.row,
        )].blocks(direction)
        ||| !self.in_grid(position.step(direction))
    }
}

/// The shared information used by all subpuzzles
#[derive(Debug)]
pub struct SharedPuzzle {
    num_columns: usize,
    num_rows: usize,
    identifiers: AnchorTable,
    walls: WallTable,
}

impl View for SharedPuzzle {
    type V = LayoutView;

    closed spec fn view(&self) -> LayoutView {
        LayoutView {
            num_columns: self.num_columns,
            num_rows: self.num_rows,
            anchors: anchor_entries(self.identifiers),
            walls: wall_entries(self.walls),
        }
    }
}

impl SharedPuzzle {
    /// A layout of the given size with the given anchors and walls.
    pub fn new(
        num_columns: usize,
        num_rows: usize,
        identifiers: Vec<(PuzzleIdentifier, GridPosition)>,
        walls: Vec<(GridPosition, WallDirection)>,
    ) -> (layout: Self)
        ensures
            layout@ == (LayoutView {
                num_columns,
                num_rows,
                anchors: anchors_of(identifiers@),
                walls: walls_of(walls@),
            }),
    {
        let identifiers = anchors_from_pairs(identifiers);
        let walls = walls_from_pairs(walls);
        Self { num_columns, num_rows, identifiers, walls }
    }

    /// The number of columns of the grid.
    pub fn num_columns(&self) -> (count: usize)
        ensures
            count == self@.num_columns,
    {
        self.num_columns
    }

    /// The number of rows of the grid.
    pub fn num_rows(&self) -> (count: usize)
        ensures
            count == self@.num_rows,
    {
        self.num_rows
    }

    /// Every declared identifier once, in no particular order.
    pub fn identifiers(&self) -> (list: Vec<PuzzleIdentifier>)
        ensures
            list@.no_duplicates(),
            forall|identifier: PuzzleIdentifier|
                list@.contains(identifier) <==> self@.declares(identifier),
    {
        let keys = anchor_keys(&self.identifiers);
        let mut list: Vec<PuzzleIdentifier> = Vec::new();
        let mut i: usize = 0;
        while i < keys.len()
            invariant
                i <= keys.len(),
                list@.len() == i,
                forall|j: int| 0 <= j < i ==> (#[trigger] list@[j]).0 == keys@[j],
            decreases keys.len() - i,
        {
            list.push(PuzzleIdentifier(keys[i]));
            i += 1;
        }
        proof {
            assert forall|a: int, b: int|
                0 <= a < list@.len() && 0 <= b < list@.len() && a != b implies list@[a]
                != list@[b] by {
                assert(keys@[a] != keys@[b]);
            }
            assert forall|identifier: PuzzleIdentifier|
                list@.contains(identifier) <==> self@.declares(identifier) by {
                if list@.contains(identifier) {
                    let j = choose|j: int| 0 <= j < list@.len() && list@[j] == identifier;
                    assert(keys@.contains(keys@[j]));
                }
                if self@.declares(identifier) {
                    assert(keys@.contains(identifier.0));
                    let j = choose|j: int| 0 <= j < keys@.len() && keys@[j] == identifier.0;
                    assert(list@[j] == identifier);
                }
            }
        }
        list
    }

    /// The anchor of an identifier, if the layout declares it.
    pub fn lookup(&self, identifier: PuzzleIdentifier) -> (anchor: Option<GridPosition>)
        ensures
            anchor == (if self@.declares(identifier) {
                Some(self@.anchor(identifier))
            } else {
                None
            }),
    {
        match anchor_get(&self.identifiers, identifier.0) {
            Some((column, row)) => Some(GridPosition::new(column, row)),
            None => None,
        }
    }

    /// Check if the position ahead of us in our direction is blocked
    pub fn is_direction_blocked(
        &self,
        position: GridPosition,
        direction: PuzzleDirection,
    ) -> (blocked: bool)
        requires
            self@.in_grid(position),
        ensures
            blocked == self@.blocked(position, direction),
    {
        // Check if there is a wall ahead of us
        if let Some(wall) = wall_get(&self.walls, position.column, position.row) {
            if wall.is_blocked(direction) {
                return true;
            }
        }
        // Check if we have reached the edge
        match direction {
            PuzzleDirection::Across => position.column + 1 >= self.num_columns,
            PuzzleDirection::Down => position.row + 1 >= self.num_rows,
        }
    }

    /// Whether every anchor of `self` stands in `other` with the same position.
    fn anchors_within(&self, other: &SharedPuzzle) -> (within: bool)
        ensures
            within == self@.anchors.submap_of(other@.anchors),
    {
        let keys = anchor_keys(&self.identifiers);
        let mut i: usize = 0;
        while i < keys.len()
            invariant
                i <= keys.len(),
                forall|k: usize| keys@.contains(k) <==> self@.anchors.contains_key(k),
                forall|j: int|
                    0 <= j < i ==> other@.anchors.contains_key(#[trigger] keys@[j])
                        && other@.anchors[keys@[j]] == self@.anchors[keys@[j]],
            decreases keys.len() - i,
        {
            let here = anchor_get(&self.identifiers, keys[i]);
            let there = anchor_get(&other.identifiers, keys[i]);
            proof {
                assert(keys@.contains(keys@[i as int]));
                assert(self@.anchors.dom().contains(keys@[i as int]));
            }
            match (here, there) {
                (Some(a), Some(b)) => {
                    if a.0 != b.0 || a.1 != b.1 {
                        return false;
                    }
                },
                _ => {
                    return false;
                },
            }
            i += 1;
        }
        proof {
            assert forall|k: usize| #[trigger]
                self@.anchors.dom().contains(k) implies other@.anchors.dom().contains(k)
                && self@.anchors[k] == other@.anchors[k] by {
                assert(keys@.contains(k));
                let j = choose|j: int| 0 <= j < keys@.len() && keys@[j] == k;
                assert(keys@[j] == k);
            }
        }
        true
    }

    /// Whether every wall of `self` stands in `other` with the same kind.
    fn walls_within(&self, other: &SharedPuzzle) -> (within: bool)
        ensures
            within == self@.walls.submap_of(other@.walls),
    {
        let keys = wall_keys(&self.walls);
        let mut i: usize = 0;
        while i < keys.len()
            invariant
                i <= keys.len(),
                forall|k: (usize, usize)| keys@.contains(k) <==> self@.walls.contains_key(k),
                forall|j: int|
                    0 <= j < i ==> other@.walls.contains_key(#[trigger] keys@[j])
                        && other@.walls[keys@[j]] == self@.walls[keys@[j]],
            decreases keys.len() - i,
        {
            let key = keys[i];
            let here = wall_get(&self.walls, key.0, key.1);
            let there = wall_get(&other.walls, key.0, key.1);
            proof {
                assert(keys@.contains(keys@[i as int]));
                assert(key == (key.0, key.1));
                assert(self@.walls.dom().contains(key));
            }
            match (here, there) {
                (Some(a), Some(b)) => {
                    if a != b {
                        return false;
                    }
                },
                _ => {
                    return false;
                },
            }
            i += 1;
        }
        proof {
            assert forall|k: (usize, usize)| #[trigger]
                self@.walls.dom().contains(k) implies other@.walls.dom().contains(k)
                && self@.walls[k] == other@.walls[k] by {
                assert(keys@.contains(k));
                let j = choose|j: int| 0 <= j < keys@.len() && keys@[j] == k;
                assert(keys@[j] == k);
            }
        }
        true
    }

    /// Whether two layouts have the same size, anchors and walls.
    pub fn same_as(&self, other: &SharedPuzzle) -> (same: bool)
        ensures
            same == (self@ == other@),
    {
        let same = self.num_columns == other.num_columns && self.num_rows == other.num_rows
            && self.anchors_within(other) && other.anchors_within(self) && self.walls_within(other)
            && other.walls_within(self);
        proof {
            if same {
                assert(self@.anchors =~= other@.anchors);
                assert forall|k: (usize, usize)|
                    self@.walls.dom().contains(k) == other@.walls.dom().contains(k) by {}
                assert forall|k: (usize, usize)| #[trigger]
                    self@.walls.dom().contains(k) implies self@.walls[k] == other@.walls[k] by {}
                assert(self@.walls =~= other@.walls);
            }
        }
        same
    }
}

} // verus!

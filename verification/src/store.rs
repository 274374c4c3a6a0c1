//! The block table and the operations over it: insert with a computed
//! sibling order, sibling reordering, recursive tree hydration and the
//! workspace bootstrap.
//!
//! The table's central invariant: for every parent, the sibling orders of
//! its direct children are pairwise distinct, non-negative, and downward
//! closed (every rank below an attained rank is attained), so they are
//! exactly `{0, ..., k-1}` for `k` children.

use vstd::prelude::*;

use crate::block::Block;
use crate::block::BlockModel;
use crate::block::models_of;
use crate::clock::UtcTime;
use crate::content::BlockContent;
use crate::errors::BlockError;

verus! {

/// One row of the block table.
#[derive(Debug)]
pub struct StoredBlock {
    pub id: u128,
    pub parent_id: u128,
    pub block_type: String,
    pub content: BlockContent,
    pub block_order: i32,
    pub favorite: bool,
    pub created_at_utc: UtcTime,
    pub updated_at_utc: UtcTime,
}

impl Clone for StoredBlock {
    fn clone(&self) -> (r: Self)
        ensures
            r == *self,
    {
        StoredBlock {
            id: self.id,
            parent_id: self.parent_id,
            block_type: self.block_type.clone(),
            content: self.content.clone(),
            block_order: self.block_order,
            favorite: self.favorite,
            created_at_utc: self.created_at_utc.clone(),
            updated_at_utc: self.updated_at_utc.clone(),
        }
    }
}

/// Some row holds `id`.
pub open spec fn has_id(rows: Seq<StoredBlock>, id: u128) -> bool {
    exists|i: int| 0 <= i < rows.len() && rows[i].id == id
}

/// Some child of `parent` sits at sibling order `k`.
pub open spec fn attained(rows: Seq<StoredBlock>, parent: u128, k: int) -> bool {
    exists|i: int|
        0 <= i < rows.len() && rows[i].parent_id == parent && rows[i].block_order == k
}

/// `parent` has at least one child.
pub open spec fn has_child(rows: Seq<StoredBlock>, parent: u128) -> bool {
    exists|i: int| 0 <= i < rows.len() && rows[i].parent_id == parent
}

/// The number of direct children of `parent` among `rows`.
pub open spec fn num_children(rows: Seq<StoredBlock>, parent: u128) -> nat
    decreases rows.len(),
{
    if rows.len() == 0 {
        0
    } else {
        num_children(rows.drop_last(), parent) + if rows.last().parent_id == parent {
            1nat
        } else {
            0nat
        }
    }
}

/// The ordering invariant of the table.
pub open spec fn wf_rows(rows: Seq<StoredBlock>) -> bool {
    &&& forall|i: int, j: int|
        0 <= i < j < rows.len() ==> #[trigger] rows[i].id != #[trigger] rows[j].id
    &&& forall|i: int|
        0 <= i < rows.len() ==> 0 <= #[trigger] rows[i].block_order < rows.len()
    &&& forall|i: int, j: int|
        0 <= i < j < rows.len() && #[trigger] rows[i].parent_id == #[trigger] rows[j].parent_id
            ==> rows[i].block_order != rows[j].block_order
    &&& forall|i: int, k: int|
        0 <= i < rows.len() && 0 <= k < rows[i].block_order ==> #[trigger] attained(
            rows,
            rows[i].parent_id,
            k,
        )
}

pub proof fn lemma_num_children_le_len(rows: Seq<StoredBlock>, parent: u128)
    ensures
        num_children(rows, parent) <= rows.len(),
    decreases rows.len(),
{
    if rows.len() > 0 {
        lemma_num_children_le_len(rows.drop_last(), parent);
    }
}

proof fn lemma_no_child_count(rows: Seq<StoredBlock>, parent: u128)
    requires
        forall|i: int| 0 <= i < rows.len() ==> #[trigger] rows[i].parent_id != parent,
    ensures
        num_children(rows, parent) == 0,
    decreases rows.len(),
{
    if rows.len() > 0 {
        assert(forall|i: int|
            0 <= i < rows.drop_last().len() ==> #[trigger] rows.drop_last()[i].parent_id
                != parent);
        lemma_no_child_count(rows.drop_last(), parent);
    }
}

proof fn lemma_count_remove(rows: Seq<StoredBlock>, parent: u128, i: int)
    requires
        0 <= i < rows.len(),
    ensures
        num_children(rows.remove(i), parent) + (if rows[i].parent_id == parent {
            1nat
        } else {
            0nat
        }) == num_children(rows, parent),
    decreases rows.len(),
{
    if i == rows.len() - 1 {
        assert(rows.remove(i) =~= rows.drop_last());
    } else {
        let r2 = rows.remove(i);
        assert(r2.drop_last() =~= rows.drop_last().remove(i));
        assert(r2.last() == rows.last());
        lemma_count_remove(rows.drop_last(), parent, i);
        assert(rows.drop_last()[i] == rows[i]);
    }
}

proof fn lemma_count_dense(rows: Seq<StoredBlock>, parent: u128, bound: int)
    requires
        bound >= 0,
        forall|i: int, j: int|
            0 <= i < j < rows.len() && #[trigger] rows[i].parent_id == parent
                && #[trigger] rows[j].parent_id == parent ==> rows[i].block_order
                != rows[j].block_order,
        forall|i: int|
            0 <= i < rows.len() && #[trigger] rows[i].parent_id == parent ==> 0
                <= rows[i].block_order < bound,
        forall|k: int| 0 <= k < bound ==> #[trigger] attained(rows, parent, k),
    ensures
        num_children(rows, parent) == bound,
    decreases bound,
{
    if bound == 0 {
        lemma_no_child_count(rows, parent);
    } else {
        assert(attained(rows, parent, bound - 1));
        let i0 = choose|i: int|
            0 <= i < rows.len() && rows[i].parent_id == parent && rows[i].block_order == bound - 1;
        let r2 = rows.remove(i0);
        assert forall|i: int, j: int|
            0 <= i < j < r2.len() && #[trigger] r2[i].parent_id == parent && #[trigger] r2[j].parent_id
                == parent implies r2[i].block_order != r2[j].block_order by {
            let oi: int = if i < i0 {
                i
            } else {
                i + 1
            };
            let oj: int = if j < i0 {
                j
            } else {
                j + 1
            };
            assert(r2[i] == rows[oi]);
            assert(r2[j] == rows[oj]);
        }
        assert forall|i: int|
            0 <= i < r2.len() && #[trigger] r2[i].parent_id == parent implies 0
            <= r2[i].block_order < bound - 1 by {
            let oi: int = if i < i0 {
                i
            } else {
                i + 1
            };
            assert(r2[i] == rows[oi]);
            assert(oi != i0);
        }
        assert forall|k: int| 0 <= k < bound - 1 implies #[trigger] attained(r2, parent, k) by {
            assert(attained(rows, parent, k));
            let w = choose|i: int|
                0 <= i < rows.len() && rows[i].parent_id == parent && rows[i].block_order == k;
            assert(w != i0);
            let w2: int = if w < i0 {
                w
            } else {
                w - 1
            };
            assert(r2[w2] == rows[w]);
        }
        lemma_count_dense(r2, parent, bound - 1);
        lemma_count_remove(rows, parent, i0);
    }
}

/// A child of `parent` at position `i` whose sibling order is greatest.
pub open spec fn is_max_child(rows: Seq<StoredBlock>, parent: u128, i: int) -> bool {
    &&& 0 <= i < rows.len()
    &&& rows[i].parent_id == parent
    &&& forall|j: int|
        0 <= j < rows.len() && #[trigger] rows[j].parent_id == parent ==> rows[j].block_order
            <= rows[i].block_order
}

proof fn lemma_exists_max_child(rows: Seq<StoredBlock>, parent: u128)
    requires
        has_child(rows, parent),
    ensures
        exists|i: int| is_max_child(rows, parent, i),
    decreases rows.len(),
{
    let prev = rows.drop_last();
    let last: int = rows.len() - 1;
    assert(forall|j: int| 0 <= j < last ==> prev[j] == rows[j]);
    if rows[last].parent_id == parent {
        if has_child(prev, parent) {
            lemma_exists_max_child(prev, parent);
            let m = choose|i: int| is_max_child(prev, parent, i);
            let w: int = if rows[last].block_order >= rows[m].block_order {
                last
            } else {
                m
            };
            assert(is_max_child(rows, parent, w));
        } else {
            assert(is_max_child(rows, parent, last));
        }
    } else {
        let w0 = choose|i: int| 0 <= i < rows.len() && rows[i].parent_id == parent;
        assert(prev[w0] == rows[w0]);
        assert(has_child(prev, parent));
        lemma_exists_max_child(prev, parent);
        let m = choose|i: int| is_max_child(prev, parent, i);
        assert(is_max_child(rows, parent, m));
    }
}

/// Law of order density: under the table invariant, the sibling orders of
/// the direct children of any parent are exactly `{0, ..., k-1}` where `k`
/// is the number of children: every child's order lies below the count, and
/// every rank below the count is attained by some child.
pub proof fn lemma_order_density(rows: Seq<StoredBlock>, parent: u128)
    requires
        wf_rows(rows),
    ensures
        forall|i: int|
            0 <= i < rows.len() && #[trigger] rows[i].parent_id == parent
                ==> rows[i].block_order < num_children(rows, parent),
        forall|k: int| 0 <= k < num_children(rows, parent) ==> #[trigger] attained(rows, parent, k),
    decreases rows.len(),
{
    if !has_child(rows, parent) {
        lemma_no_child_count(rows, parent);
    } else {
        lemma_exists_max_child(rows, parent);
        let m = choose|i: int| is_max_child(rows, parent, i);
        let top = rows[m].block_order as int;
        assert forall|k: int| 0 <= k < top + 1 implies #[trigger] attained(rows, parent, k) by {
            if k < top {
                assert(attained(rows, rows[m].parent_id, k));
            }
        }
        lemma_count_dense(rows, parent, top + 1);
    }
}

/// Law of insert monotonicity, counting form: under the table invariant, if
/// the greatest sibling order among the children of `parent` is `m`, the
/// number of children is `m + 1`, so an insert that appends at the child
/// count lands at `m + 1`; a childless parent has count `0`, so the insert
/// lands at `0`.
pub proof fn lemma_insert_order(rows: Seq<StoredBlock>, parent: u128, m: int)
    requires
        wf_rows(rows),
        attained(rows, parent, m),
        forall|j: int|
            0 <= j < rows.len() && #[trigger] rows[j].parent_id == parent ==> rows[j].block_order
                <= m,
    ensures
        num_children(rows, parent) == m + 1,
{
    let w = choose|i: int|
        0 <= i < rows.len() && rows[i].parent_id == parent && rows[i].block_order == m;
    assert forall|k: int| 0 <= k < m + 1 implies #[trigger] attained(rows, parent, k) by {
        if k < m {
            assert(attained(rows, rows[w].parent_id, k));
        }
    }
    lemma_count_dense(rows, parent, m + 1);
}

/// The index of the row holding `id`; under the table invariant it is the
/// one such index.
pub open spec fn id_index(rows: Seq<StoredBlock>, id: u128) -> int {
    choose|i: int| 0 <= i < rows.len() && rows[i].id == id
}

/// The row that persisting block `b` at sibling order `ord` writes.
pub open spec fn row_of_block(b: Block, ord: i32) -> StoredBlock {
    StoredBlock {
        id: b.id,
        parent_id: b.parent_id,
        block_type: b.block_type,
        content: b.block_contents,
        block_order: ord,
        favorite: b.favorite,
        created_at_utc: b.created_at_utc,
        updated_at_utc: b.updated_at_utc,
    }
}

/// The stored row after re-saving `b` over the row `r`: identity, parentage,
/// sibling order and creation time keep their stored values; payload, type,
/// favorite flag and update time are taken from `b`.
pub open spec fn updated_row(r: StoredBlock, b: Block) -> StoredBlock {
    StoredBlock {
        block_type: b.block_type,
        content: b.block_contents,
        favorite: b.favorite,
        updated_at_utc: b.updated_at_utc,
        ..r
    }
}

/// The greatest number of rows the table accepts.
pub const MAX_ROWS: usize = 0x7fff_fffe;

/// The block table: a flat sequence of rows.
pub struct Store {
    rows: Vec<StoredBlock>,
}

impl View for Store {
    type V = Seq<StoredBlock>;

    closed spec fn view(&self) -> Seq<StoredBlock> {
        self.rows@
    }
}

impl Store {
    /// The table invariant: well-formed rows, with room to compute one more
    /// sibling order in an `i32`.
    pub open spec fn wf(&self) -> bool {
        &&& wf_rows(self@)
        &&& self@.len() < 0x7fff_ffff
    }

    /// An empty table.
    pub fn new() -> (s: Store)
        ensures
            s.wf(),
            s@ =~= Seq::<StoredBlock>::empty(),
    {
        Store { rows: Vec::new() }
    }

    /// How many rows the table holds.
    pub fn len(&self) -> (n: usize)
        ensures
            n == self@.len(),
    {
        self.rows.len()
    }

    /// The position of the row holding `id`, if any.
    fn index_of_id(&self, id: u128) -> (r: Option<usize>)
        ensures
            match r {
                Some(i) => i < self@.len() && self@[i as int].id == id,
                None => !has_id(self@, id),
            },
    {
        let mut i: usize = 0;
        while i < self.rows.len()
            invariant
                i <= self@.len(),
                forall|j: int| 0 <= j < i ==> self@[j].id != id,
            decreases self@.len() - i,
        {
            if self.rows[i].id == id {
                return Some(i);
            }
            i = i + 1;
        }
        None
    }

    /// The position of a child of `parent` with the greatest sibling order,
    /// if `parent` has children.
    fn max_child_index(&self, parent: u128) -> (r: Option<usize>)
        ensures
            match r {
                Some(i) => {
                    &&& i < self@.len()
                    &&& self@[i as int].parent_id == parent
                    &&& forall|j: int|
                        0 <= j < self@.len() && #[trigger] self@[j].parent_id == parent
                            ==> self@[j].block_order <= self@[i as int].block_order
                },
                None => !has_child(self@, parent),
            },
    {
        let mut best: Option<usize> = None;
        let mut i: usize = 0;
        while i < self.rows.len()
            invariant
                i <= self@.len(),
                match best {
                    Some(b) => {
                        &&& b < i
                        &&& self@[b as int].parent_id == parent
                        &&& forall|j: int|
                            0 <= j < i && #[trigger] self@[j].parent_id == parent
                                ==> self@[j].block_order <= self@[b as int].block_order
                    },
                    None => forall|j: int| 0 <= j < i ==> self@[j].parent_id != parent,
                },
            decreases self@.len() - i,
        {
            if self.rows[i].parent_id == parent {
                best = match best {
                    Some(b) => {
                        if self.rows[i].block_order > self.rows[b].block_order {
                            Some(i)
                        } else {
                            Some(b)
                        }
                    },
                    None => Some(i),
                };
            }
            i = i + 1;
        }
        best
    }

    /// The position of the child of `parent` at sibling order `k`, if any.
    fn find_child_with_order(&self, parent: u128, k: i32) -> (r: Option<usize>)
        ensures
            match r {
                Some(i) => i < self@.len() && self@[i as int].parent_id == parent
                    && self@[i as int].block_order == k,
                None => !attained(self@, parent, k as int),
            },
    {
        let mut i: usize = 0;
        while i < self.rows.len()
            invariant
                i <= self@.len(),
                forall|j: int|
                    0 <= j < i && #[trigger] self@[j].parent_id == parent ==> self@[j].block_order
                        != k,
            decreases self@.len() - i,
        {
            if self.rows[i].parent_id == parent && self.rows[i].block_order == k {
                return Some(i);
            }
            i = i + 1;
        }
        None
    }
}

/// The model of the block a row hydrates to, its children being `kids`.
pub open spec fn row_model(r: StoredBlock, kids: Seq<BlockModel>) -> BlockModel {
    BlockModel {
        id: r.id,
        parent_id: r.parent_id,
        block_type: r.block_type@,
        content_type: r.content.content_type@,
        contents: crate::block::opt_view(r.content.contents),
        title: crate::block::opt_view(r.content.title),
        block_order: Some(r.block_order as int),
        favorite: r.favorite,
        created_at_utc: r.created_at_utc.rfc3339@,
        updated_at_utc: r.updated_at_utc.rfc3339@,
        children: kids,
    }
}

/// The position of the child of `parent` at sibling order `k`; under the
/// table invariant it is the one such position.
pub open spec fn child_index_at(rows: Seq<StoredBlock>, parent: u128, k: int) -> int {
    choose|i: int| 0 <= i < rows.len() && rows[i].parent_id == parent && rows[i].block_order == k
}

/// The hydrated children of `parent`, in sibling order, each child
/// hydrated recursively to a depth of `fuel` levels. A table without parent
/// cycles is fully hydrated by `fuel == rows.len()`.
pub open spec fn spec_children(rows: Seq<StoredBlock>, parent: u128, fuel: nat) -> Seq<BlockModel>
    decreases fuel,
{
    if fuel == 0 {
        Seq::empty()
    } else {
        Seq::new(
            num_children(rows, parent),
            |k: int|
                row_model(
                    rows[child_index_at(rows, parent, k)],
                    spec_children(
                        rows,
                        rows[child_index_at(rows, parent, k)].id,
                        (fuel - 1) as nat,
                    ),
                ),
        )
    }
}

/// The fully hydrated children of `parent`.
pub open spec fn hydrated_children(rows: Seq<StoredBlock>, parent: u128) -> Seq<BlockModel> {
    spec_children(rows, parent, rows.len() as nat)
}

/// The model of the block that loading `id` hydrates.
pub open spec fn loaded_model(rows: Seq<StoredBlock>, id: u128) -> BlockModel {
    row_model(rows[id_index(rows, id)], spec_children(rows, id, rows.len() as nat))
}

/// The block a row hydrates to, its children being `kids`.
fn block_from_row(row: &StoredBlock, kids: Vec<Block>) -> (b: Block)
    ensures
        b.model() == row_model(*row, models_of(kids@)),
        b.id == row.id,
{
    let b = Block {
        id: row.id,
        parent_id: row.parent_id,
        block_type: row.block_type.clone(),
        block_contents: row.content.clone(),
        block_order: Some(row.block_order),
        favorite: row.favorite,
        children: kids,
        created_at_utc: row.created_at_utc.clone(),
        updated_at_utc: row.updated_at_utc.clone(),
    };
    proof {
        assert(b.model().children =~= models_of(b.children@));
        assert(b.model() =~= row_model(*row, models_of(b.children@)));
    }
    b
}

impl Store {
    /// The hydrated children of the block `id`, in sibling order, each
    /// hydrated recursively, to a recursion depth of `fuel`.
    fn load_block_children_for_id(&self, id: u128, fuel: usize) -> (res: Vec<Block>)
        requires
            self.wf(),
        ensures
            models_of(res@) == spec_children(self@, id, fuel as nat),
        decreases fuel,
    {
        let mut out: Vec<Block> = Vec::new();
        if fuel == 0 {
            proof {
                assert(models_of(out@) =~= spec_children(self@, id, 0));
            }
            return out;
        }
        proof {
            lemma_order_density(self@, id);
            lemma_num_children_le_len(self@, id);
        }
        let ghost want = spec_children(self@, id, fuel as nat);
        let mut k: i32 = 0;
        loop
            invariant
                self.wf(),
                fuel >= 1,
                0 <= k <= num_children(self@, id),
                want == spec_children(self@, id, fuel as nat),
                want.len() == num_children(self@, id),
                models_of(out@) =~= want.take(k as int),
                out@.len() == k,
            decreases num_children(self@, id) - k,
        {
            match self.find_child_with_order(id, k) {
                None => {
                    proof {
                        lemma_order_density(self@, id);
                        if (k as nat) < num_children(self@, id) {
                            assert(attained(self@, id, k as int));
                        }
                        assert(k as nat == num_children(self@, id));
                        assert(models_of(out@) =~= want);
                    }
                    return out;
                },
                Some(i) => {
                    proof {
                        lemma_order_density(self@, id);
                        if k as nat == num_children(self@, id) {
                            assert(self@[i as int].block_order < num_children(self@, id));
                        }
                        let ci = child_index_at(self@, id, k as int);
                        assert(0 <= ci < self@.len() && self@[ci].parent_id == id
                            && self@[ci].block_order == k);
                        assert(ci == i);
                    }
                    let row = self.rows[i].clone();
                    let kids = self.load_block_children_for_id(row.id, fuel - 1);
                    let b = block_from_row(&row, kids);
                    out.push(b);
                    proof {
                        assert(models_of(out@) =~= want.take(k + 1));
                    }
                    k = k + 1;
                },
            }
        }
    }

    /// Fetch the single row with identifier `id`; if found, hydrate its
    /// children recursively, in sibling order. `None` if no row matches.
    pub fn load_by_id(&self, id: u128) -> (r: Option<Block>)
        requires
            self.wf(),
        ensures
            match r {
                Some(b) => has_id(self@, id) && b.model() == loaded_model(self@, id),
                None => !has_id(self@, id),
            },
    {
        match self.index_of_id(id) {
            None => None,
            Some(i) => {
                proof {
                    assert(has_id(self@, id));
                    let ii = id_index(self@, id);
                    assert(0 <= ii < self@.len() && self@[ii].id == id);
                    assert(ii == i);
                }
                let row = self.rows[i].clone();
                let kids = self.load_block_children_for_id(id, self.rows.len());
                Some(block_from_row(&row, kids))
            },
        }
    }

    /// Fetch all direct children of `parent_id`, ordered by sibling order,
    /// each fully hydrated. An empty vector if no children exist.
    pub fn load_for_parent(&self, parent_id: u128) -> (r: Vec<Block>)
        requires
            self.wf(),
        ensures
            models_of(r@) == hydrated_children(self@, parent_id),
    {
        self.load_block_children_for_id(parent_id, self.rows.len())
    }
}

/// The sibling order of row `r` after the block `moved` (a child of
/// `parent` at order `o`) moves to order `n`. Moving forward (`o < n`),
/// the siblings with orders strictly above `o` and up to `n` slide back one
/// rank to close the gap; moving backward (`n <= o`), the siblings at ranks
/// `n` up to just below `o` slide forward one rank to open the slot; every
/// other row keeps its order, and the moved block itself lands on `n`.
pub open spec fn shifted_order(r: StoredBlock, parent: u128, moved: u128, o: int, n: int) -> int {
    if r.parent_id != parent {
        r.block_order as int
    } else if r.id == moved {
        n
    } else if o < n {
        if o < r.block_order <= n {
            r.block_order - 1
        } else {
            r.block_order as int
        }
    } else {
        if n <= r.block_order < o {
            r.block_order + 1
        } else {
            r.block_order as int
        }
    }
}

/// Row `r` with its sibling order replaced.
pub open spec fn with_order(r: StoredBlock, o: i32) -> StoredBlock {
    StoredBlock { block_order: o, ..r }
}

/// The whole table after the block `moved` (a child of `parent` at order
/// `o`) moves to order `n`: every row keeps all its fields but its sibling
/// order, which shifts as `shifted_order` says.
pub open spec fn reordered_rows(
    rows: Seq<StoredBlock>,
    parent: u128,
    moved: u128,
    o: int,
    n: int,
) -> Seq<StoredBlock> {
    Seq::new(
        rows.len(),
        |i: int| with_order(rows[i], shifted_order(rows[i], parent, moved, o, n) as i32),
    )
}

/// The target order `n` is within range for moving the stored block `id`:
/// at least `0` and below the number of its siblings.
pub open spec fn reorder_in_range(rows: Seq<StoredBlock>, id: u128, n: int) -> bool {
    &&& has_id(rows, id)
    &&& 0 <= n < num_children(rows, rows[id_index(rows, id)].parent_id)
}

impl Block {
    /// The hydrated child of this block's parent with the greatest sibling
    /// order, used to compute the next insertion order. `None` if this
    /// block's parent has no children at all.
    pub fn load_last_block_in_same_page(&self, store: &Store) -> (r: Option<Block>)
        requires
            store.wf(),
        ensures
            match r {
                Some(b) => {
                    &&& has_child(store@, self.parent_id)
                    &&& exists|i: int|
                        is_max_child(store@, self.parent_id, i) && b.model() == row_model(
                            store@[i],
                            spec_children(store@, store@[i].id, store@.len() as nat),
                        )
                },
                None => !has_child(store@, self.parent_id),
            },
    {
        match store.max_child_index(self.parent_id) {
            None => None,
            Some(i) => {
                let row = store.rows[i].clone();
                let kids = store.load_block_children_for_id(row.id, store.rows.len());
                let b = block_from_row(&row, kids);
                proof {
                    assert(is_max_child(store@, self.parent_id, i as int));
                }
                Some(b)
            },
        }
    }

    /// Whether a row with this block's identifier is already stored.
    pub fn is_stored(&self, store: &Store) -> (r: bool)
        ensures
            r == has_id(store@, self.id),
    {
        let r = store.index_of_id(self.id);
        proof {
            if r is Some {
                let i = r->Some_0;
                assert(has_id(store@, self.id));
            }
        }
        r.is_some()
    }

    /// Persist this block. A block whose identifier is not yet stored is
    /// appended as a new row whose sibling order is the current number of
    /// children of its parent (one past the greatest sibling order, or `0`
    /// under a childless parent). A block whose identifier is already stored
    /// has that row's payload, type, favorite flag and update time replaced,
    /// while its parentage, sibling order and creation time keep their
    /// stored values. The insert fails, leaving the table unchanged, only
    /// when the table is full.
    pub fn save(&self, store: &mut Store) -> (r: Result<(), BlockError>)
        requires
            old(store).wf(),
        ensures
            final(store).wf(),
            has_id(old(store)@, self.id) ==> {
                &&& r is Ok
                &&& final(store)@ =~= old(store)@.update(
                    id_index(old(store)@, self.id),
                    updated_row(old(store)@[id_index(old(store)@, self.id)], *self),
                )
            },
            !has_id(old(store)@, self.id) && old(store)@.len() < MAX_ROWS ==> {
                &&& r is Ok
                &&& final(store)@ =~= old(store)@.push(
                    row_of_block(*self, num_children(old(store)@, self.parent_id) as i32),
                )
            },
            !has_id(old(store)@, self.id) && old(store)@.len() >= MAX_ROWS ==> {
                &&& r == Err::<(), BlockError>(BlockError::StorageError)
                &&& final(store)@ =~= old(store)@
            },
    {
        let ghost rows0 = store@;
        match store.index_of_id(self.id) {
            Some(i) => {
                proof {
                    assert(has_id(rows0, self.id));
                }
                let mut row = store.rows[i].clone();
                row.block_type = self.block_type.clone();
                row.content = self.block_contents.clone();
                row.favorite = self.favorite;
                row.updated_at_utc = self.updated_at_utc.clone();
                store.rows[i] = row;
                proof {
                    let ii = id_index(rows0, self.id);
                    assert(0 <= ii < rows0.len() && rows0[ii].id == self.id);
                    assert(ii == i);
                    assert(store@ =~= rows0.update(i as int, updated_row(rows0[i as int], *self)));
                    assert forall|a: int, b: int|
                        0 <= a < b < store@.len() && #[trigger] store@[a].parent_id
                            == #[trigger] store@[b].parent_id implies store@[a].block_order
                        != store@[b].block_order by {
                        assert(store@[a].parent_id == rows0[a].parent_id);
                        assert(store@[b].parent_id == rows0[b].parent_id);
                    }
                    assert forall|a: int, k: int|
                        0 <= a < store@.len() && 0 <= k < store@[a].block_order implies #[trigger] attained(
                        store@,
                        store@[a].parent_id,
                        k,
                    ) by {
                        assert(store@[a].parent_id == rows0[a].parent_id);
                        assert(store@[a].block_order == rows0[a].block_order);
                        assert(attained(rows0, rows0[a].parent_id, k));
                        let w = choose|w: int|
                            0 <= w < rows0.len() && rows0[w].parent_id == rows0[a].parent_id
                                && rows0[w].block_order == k;
                        assert(store@[w].parent_id == rows0[w].parent_id);
                        assert(store@[w].block_order == rows0[w].block_order);
                    }
                }
                Ok(())
            },
            None => {
                if store.rows.len() >= MAX_ROWS {
                    return Err(BlockError::StorageError);
                }
                let next: i32 = match store.max_child_index(self.parent_id) {
                    Some(m) => {
                        proof {
                            lemma_insert_order(
                                rows0,
                                self.parent_id,
                                rows0[m as int].block_order as int,
                            );
                        }
                        store.rows[m].block_order + 1
                    },
                    None => {
                        proof {
                            lemma_no_child_count(rows0, self.parent_id);
                        }
                        0
                    },
                };
                assert(next as nat == num_children(rows0, self.parent_id));
                let row = StoredBlock {
                    id: self.id,
                    parent_id: self.parent_id,
                    block_type: self.block_type.clone(),
                    content: self.block_contents.clone(),
                    block_order: next,
                    favorite: self.favorite,
                    created_at_utc: self.created_at_utc.clone(),
                    updated_at_utc: self.updated_at_utc.clone(),
                };
                store.rows.push(row);
                proof {
                    let n = rows0.len() as int;
                    assert(store@ =~= rows0.push(row_of_block(*self, next)));
                    assert(forall|j: int| 0 <= j < n ==> store@[j] == rows0[j]);
                    lemma_num_children_le_len(rows0, self.parent_id);
                    assert forall|a: int, b: int|
                        0 <= a < b < store@.len() && #[trigger] store@[a].parent_id
                            == #[trigger] store@[b].parent_id implies store@[a].block_order
                        != store@[b].block_order by {
                        if b == n && store@[a].parent_id == self.parent_id {
                            assert(rows0[a].block_order < next);
                        }
                    }
                    assert forall|a: int, k: int|
                        0 <= a < store@.len() && 0 <= k < store@[a].block_order implies #[trigger] attained(
                        store@,
                        store@[a].parent_id,
                        k,
                    ) by {
                        if a < n {
                            assert(attained(rows0, rows0[a].parent_id, k));
                            let w = choose|w: int|
                                0 <= w < rows0.len() && rows0[w].parent_id == rows0[a].parent_id
                                    && rows0[w].block_order == k;
                            assert(store@[w] == rows0[w]);
                        } else {
                            lemma_order_density(rows0, self.parent_id);
                            assert(attained(rows0, self.parent_id, k));
                            let w = choose|w: int|
                                0 <= w < rows0.len() && rows0[w].parent_id == self.parent_id
                                    && rows0[w].block_order == k;
                            assert(store@[w] == rows0[w]);
                        }
                    }
                }
                Ok(())
            },
        }
    }
}

impl Block {
    /// Move this block to sibling order `new_order` among its siblings,
    /// keeping the sibling orders dense: the affected siblings shift one
    /// rank as `shifted_order` says, and the moved block lands on
    /// `new_order`. Returns the freshly reloaded block. Fails with
    /// `NotFound` when this block's identifier is not stored, and with
    /// `ContractViolation` when `new_order` lies outside `[0, k-1]` for `k`
    /// siblings; either failure leaves the table unchanged.
    #[verifier::rlimit(60)]
    pub fn change_block_order(&self, new_order: i32, store: &mut Store) -> (r: Result<
        Block,
        BlockError,
    >)
        requires
            old(store).wf(),
        ensures
            final(store).wf(),
            !has_id(old(store)@, self.id) ==> r == Err::<Block, BlockError>(BlockError::NotFound)
                && final(store)@ =~= old(store)@,
            has_id(old(store)@, self.id) && !reorder_in_range(old(store)@, self.id, new_order as int)
                ==> r == Err::<Block, BlockError>(BlockError::ContractViolation) && final(store)@
                =~= old(store)@,
            reorder_in_range(old(store)@, self.id, new_order as int) ==> {
                &&& final(store)@ =~= reordered_rows(
                    old(store)@,
                    old(store)@[id_index(old(store)@, self.id)].parent_id,
                    self.id,
                    old(store)@[id_index(old(store)@, self.id)].block_order as int,
                    new_order as int,
                )
                &&& r matches Ok(b) && b.model() == loaded_model(final(store)@, self.id)
            },
    {
        let ghost rows0 = store@;
        let idx = match store.index_of_id(self.id) {
            None => {
                return Err(BlockError::NotFound);
            },
            Some(i) => i,
        };
        proof {
            assert(has_id(rows0, self.id));
            let ii = id_index(rows0, self.id);
            assert(0 <= ii < rows0.len() && rows0[ii].id == self.id);
            assert(ii == idx);
        }
        let parent = store.rows[idx].parent_id;
        let old_order = store.rows[idx].block_order;
        match store.find_child_with_order(parent, new_order) {
            None => {
                proof {
                    lemma_order_density(rows0, parent);
                    if 0 <= new_order < num_children(rows0, parent) {
                        assert(attained(rows0, parent, new_order as int));
                    }
                }
                return Err(BlockError::ContractViolation);
            },
            Some(_) => {
                proof {
                    lemma_order_density(rows0, parent);
                    lemma_num_children_le_len(rows0, parent);
                }
            },
        }
        let ghost o = old_order as int;
        let ghost n = new_order as int;
        let ghost target = reordered_rows(rows0, parent, self.id, o, n);
        let mut i: usize = 0;
        while i < store.rows.len()
            invariant
                store@.len() == rows0.len(),
                i <= rows0.len(),
                target == reordered_rows(rows0, parent, self.id, o, n),
                forall|j: int| 0 <= j < i ==> store@[j] == target[j],
                forall|j: int| i <= j < rows0.len() ==> store@[j] == rows0[j],
                o == old_order as int,
                n == new_order as int,
                0 <= o < 0x7fff_ffff,
                0 <= n < 0x7fff_ffff,
            decreases rows0.len() - i,
        {
            let ghost pre = store@[i as int];
            proof {
                assert(pre == rows0[i as int]);
                assert(target[i as int] == with_order(
                    pre,
                    shifted_order(pre, parent, self.id, o, n) as i32,
                ));
            }
            let ord = store.rows[i].block_order;
            if store.rows[i].parent_id == parent {
                let mut row = store.rows[i].clone();
                if store.rows[i].id == self.id {
                    row.block_order = new_order;
                } else if old_order < new_order {
                    if old_order < ord && ord <= new_order {
                        row.block_order = ord - 1;
                    }
                } else {
                    if new_order <= ord && ord < old_order {
                        row.block_order = ord + 1;
                    }
                }
                store.rows[i] = row;
            }
            proof {
                let sh = shifted_order(pre, parent, self.id, o, n);
                if pre.parent_id != parent {
                    assert(sh == pre.block_order as int);
                } else if pre.id == self.id {
                    assert(sh == n);
                } else if o < n {
                    if o < pre.block_order <= n {
                        assert(sh == pre.block_order - 1);
                    } else {
                        assert(sh == pre.block_order as int);
                    }
                } else {
                    if n <= pre.block_order < o {
                        assert(sh == pre.block_order + 1);
                    } else {
                        assert(sh == pre.block_order as int);
                    }
                }
                assert(-0x8000_0000 <= sh < 0x8000_0000);
                assert(store@[i as int].block_order == sh as i32);
                assert(store@[i as int] == target[i as int]);
            }
            i = i + 1;
        }
        proof {
            assert(store@ =~= target);
            lemma_reordered_wf(rows0, parent, self.id, idx as int, o, n);
        }
        match store.load_by_id(self.id) {
            Some(b) => Ok(b),
            None => {
                proof {
                    assert(target[idx as int].id == self.id);
                    assert(has_id(store@, self.id));
                    assert(false);
                }
                Err(BlockError::NotFound)
            },
        }
    }
}

/// Moving a stored block to an in-range target order preserves the table
/// invariant: the reordered table is well-formed, its sibling orders for
/// the affected parent again exactly `{0, ..., k-1}`.
pub proof fn lemma_reordered_wf(
    rows: Seq<StoredBlock>,
    parent: u128,
    moved: u128,
    idx: int,
    o: int,
    n: int,
)
    requires
        wf_rows(rows),
        rows.len() < 0x7fff_ffff,
        0 <= idx < rows.len(),
        rows[idx].id == moved,
        rows[idx].parent_id == parent,
        rows[idx].block_order == o,
        0 <= n < num_children(rows, parent),
    ensures
        wf_rows(reordered_rows(rows, parent, moved, o, n)),
{
    let t = reordered_rows(rows, parent, moved, o, n);
    let cnt = num_children(rows, parent) as int;
    lemma_order_density(rows, parent);
    lemma_num_children_le_len(rows, parent);
    assert(0 <= o < cnt);
    assert(cnt <= rows.len() < 0x7fff_ffff);
    assert forall|j: int| 0 <= j < rows.len() implies #[trigger] t[j] == with_order(
        rows[j],
        shifted_order(rows[j], parent, moved, o, n) as i32,
    ) && 0 <= shifted_order(rows[j], parent, moved, o, n) < 0x7fff_ffff by {
        if rows[j].parent_id == parent {
            assert(rows[j].block_order < cnt);
        }
    }
    assert forall|j: int|
        0 <= j < rows.len() && j != idx && #[trigger] rows[j].parent_id == parent implies rows[j].id
        != moved && rows[j].block_order != o by {
        if j < idx {
            assert(rows[j].id != rows[idx].id);
        } else {
            assert(rows[idx].id != rows[j].id);
        }
    }
    // Every rank below the child count is attained after the move.
    assert forall|k: int| 0 <= k < cnt implies #[trigger] attained(t, parent, k) by {
        if k == n {
            assert(t[idx].parent_id == parent && t[idx].block_order == k);
        } else if o < n && o <= k < n {
            assert(attained(rows, parent, k + 1));
            let w = choose|w: int|
                0 <= w < rows.len() && rows[w].parent_id == parent && rows[w].block_order == k + 1;
            assert(w != idx);
            assert(t[w].parent_id == parent && t[w].block_order == k);
        } else if n <= o && n < k <= o {
            assert(attained(rows, parent, k - 1));
            let w = choose|w: int|
                0 <= w < rows.len() && rows[w].parent_id == parent && rows[w].block_order == k - 1;
            assert(w != idx || k - 1 == o);
            if k - 1 == o {
                assert(t[idx].block_order == n);
                assert(attained(rows, parent, k));
                let w2 = choose|w2: int|
                    0 <= w2 < rows.len() && rows[w2].parent_id == parent && rows[w2].block_order
                        == k;
                assert(w2 != idx);
                assert(t[w2].parent_id == parent && t[w2].block_order == k);
            } else {
                assert(t[w].parent_id == parent && t[w].block_order == k);
            }
        } else {
            assert(attained(rows, parent, k));
            let w = choose|w: int|
                0 <= w < rows.len() && rows[w].parent_id == parent && rows[w].block_order == k;
            assert(w != idx);
            assert(t[w].parent_id == parent && t[w].block_order == k);
        }
    }
    // Orders of the affected parent's children stay below the count.
    assert forall|j: int|
        0 <= j < t.len() && #[trigger] t[j].parent_id == parent implies 0 <= t[j].block_order
        < cnt by {
        assert(rows[j].parent_id == parent);
        assert(rows[j].block_order < cnt);
    }
    // Distinctness of orders within the affected parent.
    assert forall|a: int, b: int|
        0 <= a < b < t.len() && #[trigger] t[a].parent_id == #[trigger] t[b].parent_id
            implies t[a].block_order != t[b].block_order by {
        assert(t[a].parent_id == rows[a].parent_id);
        assert(t[b].parent_id == rows[b].parent_id);
        assert(rows[a].block_order != rows[b].block_order);
        if rows[a].parent_id == parent {
            assert(a == idx || (rows[a].id != moved && rows[a].block_order != o));
            assert(b == idx || (rows[b].id != moved && rows[b].block_order != o));
        }
    }
    // Downward closure for every parent.
    assert forall|a: int, k: int|
        0 <= a < t.len() && 0 <= k < t[a].block_order implies #[trigger] attained(
        t,
        t[a].parent_id,
        k,
    ) by {
        if t[a].parent_id == parent {
            assert(t[a].block_order < cnt);
            assert(attained(t, parent, k));
        } else {
            assert(t[a].block_order == rows[a].block_order);
            assert(t[a].parent_id == rows[a].parent_id);
            assert(attained(rows, rows[a].parent_id, k));
            let w = choose|w: int|
                0 <= w < rows.len() && rows[w].parent_id == rows[a].parent_id
                    && rows[w].block_order == k;
            assert(t[w].parent_id == rows[w].parent_id && t[w].block_order == rows[w].block_order);
        }
    }
    assert forall|a: int, b: int|
        0 <= a < b < t.len() implies #[trigger] t[a].id != #[trigger] t[b].id by {
        assert(t[a].id == rows[a].id && t[b].id == rows[b].id);
    }
    assert forall|j: int|
        0 <= j < t.len() implies 0 <= #[trigger] t[j].block_order < t.len() by {
        if t[j].parent_id == parent {
            assert(cnt <= t.len());
        } else {
            assert(t[j].block_order == rows[j].block_order);
        }
    }
}

impl Block {
    /// Create the workspace block `workspace_id` with its home page, from
    /// already-drawn identifiers and timestamps: a home page (`"page"`
    /// type, favorite, contents `"Home"`) is persisted under the workspace,
    /// then the workspace block itself (`"workspace"` type, its payload
    /// contents holding the home page's identifier text as a
    /// back-reference), and the freshly reloaded workspace block is
    /// returned. Fails, leaving the table unchanged, exactly when the table
    /// cannot take two more rows or one of the drawn identifiers collides.
    pub fn create_workspace_block(
        workspace_id: u128,
        home_id: u128,
        workspace_parent_id: u128,
        home_created: UtcTime,
        home_updated: UtcTime,
        ws_created: UtcTime,
        ws_updated: UtcTime,
        store: &mut Store,
    ) -> (r: Result<Block, BlockError>)
        requires
            old(store).wf(),
        ensures
            final(store).wf(),
            r is Err ==> final(store)@ =~= old(store)@ && r == Err::<Block, BlockError>(
                BlockError::StorageError,
            ),
            r is Err <==> {
                ||| old(store)@.len() >= MAX_ROWS - 1
                ||| has_id(old(store)@, home_id)
                ||| home_id == workspace_id
                ||| workspace_parent_id == workspace_id
                ||| has_id(old(store)@, workspace_id)
            },
            r is Ok ==> ({
                let n = old(store)@.len() as int;
                let b = r->Ok_0;
                &&& final(store)@.len() == n + 2
                &&& forall|j: int| 0 <= j < n ==> final(store)@[j] == old(store)@[j]
                &&& final(store)@[n].id == home_id
                &&& final(store)@[n].parent_id == workspace_id
                &&& final(store)@[n].block_type@ == "page"@
                &&& final(store)@[n].content.content_type@ == "page"@
                &&& crate::block::opt_view(final(store)@[n].content.contents) == Some("Home"@)
                &&& final(store)@[n].content.title is None
                &&& final(store)@[n].favorite == true
                &&& final(store)@[n].block_order == num_children(old(store)@, workspace_id) as i32
                &&& final(store)@[n].created_at_utc == home_created
                &&& final(store)@[n].updated_at_utc == home_updated
                &&& final(store)@[n + 1].id == workspace_id
                &&& final(store)@[n + 1].parent_id == workspace_parent_id
                &&& final(store)@[n + 1].block_type@ == "workspace"@
                &&& final(store)@[n + 1].content.content_type@ == "workspace"@
                &&& crate::block::opt_view(final(store)@[n + 1].content.contents) == Some(
                    crate::ids::uuid_text_of(home_id),
                )
                &&& final(store)@[n + 1].favorite == false
                &&& final(store)@[n + 1].created_at_utc == ws_created
                &&& final(store)@[n + 1].updated_at_utc == ws_updated
                &&& has_id(final(store)@, workspace_id)
                &&& b.id == workspace_id
                &&& b.model() == loaded_model(final(store)@, workspace_id)
            }),
    {
        let ghost rows0 = store@;
        if store.len() >= MAX_ROWS - 1 {
            return Err(BlockError::StorageError);
        }
        if store.index_of_id(home_id).is_some() {
            proof {
                assert(has_id(rows0, home_id));
            }
            return Err(BlockError::StorageError);
        }
        if home_id == workspace_id {
            return Err(BlockError::StorageError);
        }
        if workspace_parent_id == workspace_id {
            return Err(BlockError::StorageError);
        }
        if store.index_of_id(workspace_id).is_some() {
            proof {
                assert(has_id(rows0, workspace_id));
            }
            return Err(BlockError::StorageError);
        }
        let homepage = Block {
            id: home_id,
            parent_id: workspace_id,
            block_type: "page".to_owned(),
            block_contents: BlockContent::new("page".to_owned(), "Home".to_owned()),
            block_order: None,
            favorite: true,
            children: Vec::new(),
            created_at_utc: home_created,
            updated_at_utc: home_updated,
        };
        match homepage.save(store) {
            Ok(()) => (),
            Err(_) => {
                proof {
                    assert(false);
                }
                return Err(BlockError::StorageError);
            },
        }
        let home_id_text = crate::ids::id_to_text(home_id);
        let workspace_block = Block {
            id: workspace_id,
            parent_id: workspace_parent_id,
            block_type: "workspace".to_owned(),
            block_contents: BlockContent {
                content_type: "workspace".to_owned(),
                contents: Some(home_id_text),
                title: None,
            },
            block_order: None,
            favorite: false,
            children: Vec::new(),
            created_at_utc: ws_created,
            updated_at_utc: ws_updated,
        };
        proof {
            assert forall|w: int| 0 <= w < store@.len() implies store@[w].id != workspace_id by {
                if w < store@.len() - 1 {
                    assert(store@[w] == rows0[w]);
                }
            }
            assert(store@.len() < MAX_ROWS);
        }
        match workspace_block.save(store) {
            Ok(()) => (),
            Err(_) => {
                proof {
                    assert(false);
                }
                return Err(BlockError::StorageError);
            },
        }
        proof {
            assert(store@[store@.len() - 1].id == workspace_id);
            assert(has_id(store@, workspace_id));
        }
        match store.load_by_id(workspace_id) {
            Some(b) => Ok(b),
            None => {
                proof {
                    assert(false);
                }
                Err(BlockError::StorageError)
            },
        }
    }

    /// Find the workspace block `workspace_id`, or create it on first run:
    /// a home page (`"page"` type, favorite, contents `"Home"`) is
    /// persisted under the workspace, then the workspace block itself
    /// (`"workspace"` type, its payload contents holding the home page's
    /// identifier as a back-reference), and the freshly reloaded workspace
    /// block is returned, its children reflecting the stored state — so a
    /// second call finds the workspace, leaves the table unchanged, and
    /// returns an equal block. Creation fails, leaving the table unchanged,
    /// when the table cannot take two more rows (always then) or a freshly
    /// drawn identifier collides with a stored one.
    pub fn find_or_create_workspace_block(workspace_id: u128, store: &mut Store) -> (r: Result<
        Block,
        BlockError,
    >)
        requires
            old(store).wf(),
        ensures
            final(store).wf(),
            has_id(old(store)@, workspace_id) ==> {
                &&& final(store)@ =~= old(store)@
                &&& r matches Ok(b) && b.model() == loaded_model(old(store)@, workspace_id)
            },
            r is Err ==> final(store)@ =~= old(store)@ && r == Err::<Block, BlockError>(
                BlockError::StorageError,
            ) && !has_id(old(store)@, workspace_id),
            !has_id(old(store)@, workspace_id) && old(store)@.len() >= MAX_ROWS - 1 ==> r is Err,
            !has_id(old(store)@, workspace_id) && r is Ok ==> ({
                let n = old(store)@.len() as int;
                let b = r->Ok_0;
                &&& b.id == workspace_id
                &&& b.model() == loaded_model(final(store)@, workspace_id)
                &&& b.model().block_type == "workspace"@
                &&& b.model().contents == Some(
                    crate::ids::uuid_text_of(final(store)@[n].id),
                )
                &&& final(store)@.len() == n + 2
                &&& forall|j: int| 0 <= j < n ==> final(store)@[j] == old(store)@[j]
                &&& final(store)@[n].parent_id == workspace_id
                &&& final(store)@[n].block_type@ == "page"@
                &&& crate::block::opt_view(final(store)@[n].content.contents) == Some("Home"@)
                &&& final(store)@[n].favorite == true
                &&& final(store)@[n].block_order == num_children(old(store)@, workspace_id) as i32
                &&& final(store)@[n + 1].id == workspace_id
                &&& final(store)@[n + 1].block_type@ == "workspace"@
                &&& has_id(final(store)@, workspace_id)
            }),
    {
        let ghost rows0 = store@;
        match store.load_by_id(workspace_id) {
            Some(workspace_block) => Ok(workspace_block),
            None => {
                let home_id = crate::ids::fresh_id();
                let workspace_parent_id = crate::ids::fresh_id();
                let home_created = crate::clock::now_rfc3339();
                let home_updated = crate::clock::now_rfc3339();
                let ws_created = crate::clock::now_rfc3339();
                let ws_updated = crate::clock::now_rfc3339();
                let r = Block::create_workspace_block(
                    workspace_id,
                    home_id,
                    workspace_parent_id,
                    home_created,
                    home_updated,
                    ws_created,
                    ws_updated,
                    store,
                );
                proof {
                    if r is Ok {
                        let n = rows0.len() as int;
                        let ii = id_index(store@, workspace_id);
                        assert(0 <= ii < store@.len() && store@[ii].id == workspace_id);
                        if ii < n {
                            assert(store@[ii] == rows0[ii]);
                            assert(false);
                        }
                        assert(store@[n].id != workspace_id);
                        assert(ii == n + 1);
                        assert(r->Ok_0.model() == row_model(
                            store@[n + 1],
                            spec_children(store@, workspace_id, store@.len() as nat),
                        ));
                    }
                }
                r
            },
        }
    }
}

/// Persist a freshly built page block under its parent. Fails, leaving the
/// table unchanged, exactly when the block's identifier is already stored
/// or the table is full.
pub fn place_home_page(page: Block, store: &mut Store) -> (r: Result<Block, BlockError>)
    requires
        old(store).wf(),
    ensures
        final(store).wf(),
        r is Err ==> final(store)@ =~= old(store)@ && r == Err::<Block, BlockError>(
            BlockError::StorageError,
        ),
        r is Err <==> (has_id(old(store)@, page.id) || old(store)@.len() >= MAX_ROWS),
        r matches Ok(b) ==> b == page && final(store)@ =~= old(store)@.push(
            row_of_block(page, num_children(old(store)@, page.parent_id) as i32),
        ),
{
    if page.is_stored(store) {
        return Err(BlockError::StorageError);
    }
    if store.len() >= MAX_ROWS {
        return Err(BlockError::StorageError);
    }
    match page.save(store) {
        Ok(()) => (),
        Err(_) => {
            proof {
                assert(false);
            }
            return Err(BlockError::StorageError);
        },
    }
    Ok(page)
}

/// Find the home page under `workspace_id`: the last of the workspace's
/// hydrated children, or, if the workspace has no children at all, a
/// freshly created and persisted page block titled `"Home"` (returned
/// unsaved-shaped, its order not yet set in memory). Creation fails,
/// leaving the table unchanged, when the table is full (always then) or
/// the freshly drawn identifier collides with a stored one.
pub fn load_home_page(workspace_id: u128, store: &mut Store) -> (r: Result<Block, BlockError>)
    requires
        old(store).wf(),
    ensures
        final(store).wf(),
        num_children(old(store)@, workspace_id) > 0 ==> {
            &&& final(store)@ =~= old(store)@
            &&& r matches Ok(b) && b.model() == hydrated_children(old(store)@, workspace_id).last()
        },
        r is Err ==> final(store)@ =~= old(store)@ && r == Err::<Block, BlockError>(
            BlockError::StorageError,
        ),
        num_children(old(store)@, workspace_id) == 0 && old(store)@.len() >= MAX_ROWS ==> r is Err,
        num_children(old(store)@, workspace_id) == 0 && r is Ok ==> ({
            let b = r->Ok_0;
            &&& b.parent_id == workspace_id
            &&& b.block_type@ == "page"@
            &&& b.block_contents.content_type@ == "page"@
            &&& crate::block::opt_view(b.block_contents.contents) == Some("Home"@)
            &&& b.block_order is None
            &&& final(store)@ =~= old(store)@.push(row_of_block(b, 0))
        }),
{
    let ghost rows0 = store@;
    let mut blocks = store.load_for_parent(workspace_id);
    if blocks.len() == 0 {
        proof {
            assert(models_of(blocks@).len() == 0);
            if rows0.len() > 0 {
                assert(hydrated_children(rows0, workspace_id).len() == num_children(
                    rows0,
                    workspace_id,
                ));
            }
            assert(num_children(rows0, workspace_id) == 0);
        }
        let new_block = Block::new(workspace_id, "page".to_owned(), "Home".to_owned());
        place_home_page(new_block, store)
    } else {
        proof {
            assert(models_of(blocks@).len() == blocks@.len());
            assert(hydrated_children(rows0, workspace_id).last() == models_of(blocks@)[blocks@.len()
                - 1]);
        }
        match blocks.pop() {
            Some(b) => Ok(b),
            None => {
                proof {
                    assert(false);
                }
                Err(BlockError::StorageError)
            },
        }
    }
}


/// One raw row as the storage layer hands it over: every column in its
/// stored text form.
#[derive(Debug)]
pub struct RawRow {
    pub id: String,
    pub parent_id: String,
    pub block_type: String,
    pub data: String,
    pub block_order: i32,
    pub favorite: bool,
    pub created_at_utc: String,
    pub updated_at_utc: String,
}

impl StoredBlock {
    /// Decode one raw row with strict parsing: identifiers as canonical
    /// UUID text, timestamps as RFC 3339 text, the payload as the
    /// canonical content encoding, the sibling order non-negative. Any
    /// parse failure is a fatal decode error for the row, not a skip.
    pub fn from_row(row: &RawRow) -> (r: Result<StoredBlock, BlockError>)
        ensures
            r is Err ==> r == Err::<StoredBlock, BlockError>(BlockError::DecodeError),
            r is Ok ==> {
                &&& crate::ids::uuid_parse_ok(row.id@)
                &&& crate::ids::uuid_parse_ok(row.parent_id@)
                &&& crate::clock::rfc3339_valid(row.created_at_utc@)
                &&& crate::clock::rfc3339_valid(row.updated_at_utc@)
                &&& exists|ct: Seq<char>, co: Option<Seq<char>>, ti: Option<Seq<char>>|
                    row.data@ == #[trigger] crate::codec::content_json(ct, co, ti) || row.data@
                        == crate::codec::content_json_compat(ct, co, ti)
                &&& row.block_order >= 0
            },
            ({
                &&& crate::ids::uuid_parse_ok(row.id@)
                &&& crate::ids::uuid_parse_ok(row.parent_id@)
                &&& crate::clock::rfc3339_valid(row.created_at_utc@)
                &&& crate::clock::rfc3339_valid(row.updated_at_utc@)
                &&& exists|ct: Seq<char>, co: Option<Seq<char>>, ti: Option<Seq<char>>|
                    row.data@ == #[trigger] crate::codec::content_json(ct, co, ti)
                &&& row.block_order >= 0
            }) ==> r is Ok,
            r matches Ok(b) ==> {
                &&& forall|x: u128| row.id@ == crate::ids::uuid_text_of(x) ==> b.id == x
                &&& forall|x: u128|
                    row.parent_id@ == crate::ids::uuid_text_of(x) ==> b.parent_id == x
                &&& b.block_type == row.block_type
                &&& (row.data@ == crate::codec::content_json(
                    b.content.content_type@,
                    crate::block::opt_view(b.content.contents),
                    crate::block::opt_view(b.content.title),
                ) || row.data@ == crate::codec::content_json_compat(
                    b.content.content_type@,
                    crate::block::opt_view(b.content.contents),
                    crate::block::opt_view(b.content.title),
                ))
                &&& b.block_order == row.block_order && b.block_order >= 0
                &&& b.favorite == row.favorite
                &&& b.created_at_utc.rfc3339 == row.created_at_utc && b.created_at_utc.wf()
                &&& b.updated_at_utc.rfc3339 == row.updated_at_utc && b.updated_at_utc.wf()
            },
    {
        let id = match crate::ids::parse_id(row.id.as_str()) {
            Some(x) => x,
            None => {
                return Err(BlockError::DecodeError);
            },
        };
        let parent_id = match crate::ids::parse_id(row.parent_id.as_str()) {
            Some(x) => x,
            None => {
                return Err(BlockError::DecodeError);
            },
        };
        if !crate::clock::is_valid_rfc3339(row.created_at_utc.as_str()) {
            return Err(BlockError::DecodeError);
        }
        if !crate::clock::is_valid_rfc3339(row.updated_at_utc.as_str()) {
            return Err(BlockError::DecodeError);
        }
        let content = match BlockContent::from_json_string(row.data.as_str()) {
            Ok(c) => c,
            Err(_) => {
                return Err(BlockError::DecodeError);
            },
        };
        if row.block_order < 0 {
            return Err(BlockError::DecodeError);
        }
        proof {
            assert(exists|ct: Seq<char>, co: Option<Seq<char>>, ti: Option<Seq<char>>|
                row.data@ == #[trigger] crate::codec::content_json(ct, co, ti) || row.data@
                    == crate::codec::content_json_compat(ct, co, ti)) by {
                assert(row.data@ == crate::codec::content_json(
                    content.content_type@,
                    crate::block::opt_view(content.contents),
                    crate::block::opt_view(content.title),
                ) || row.data@ == crate::codec::content_json_compat(
                    content.content_type@,
                    crate::block::opt_view(content.contents),
                    crate::block::opt_view(content.title),
                ));
            }
        }
        Ok(
            StoredBlock {
                id,
                parent_id,
                block_type: row.block_type.clone(),
                content,
                block_order: row.block_order,
                favorite: row.favorite,
                created_at_utc: UtcTime { rfc3339: row.created_at_utc.clone() },
                updated_at_utc: UtcTime { rfc3339: row.updated_at_utc.clone() },
            },
        )
    }
}

/// Law of round trip: persisting an unsaved block and then loading it by
/// its identifier returns a block equal to it in every field, except that
/// the sibling order is now set (to the child count of its parent at save
/// time) and the children reflect the stored state, not the in-memory
/// state at save time.
pub proof fn lemma_save_then_load(rows: Seq<StoredBlock>, b: Block)
    requires
        wf_rows(rows),
        !has_id(rows, b.id),
        rows.len() < MAX_ROWS,
    ensures
        ({
            let ord = num_children(rows, b.parent_id) as i32;
            let rows2 = rows.push(row_of_block(b, ord));
            let m = loaded_model(rows2, b.id);
            &&& has_id(rows2, b.id)
            &&& m.id == b.id
            &&& m.parent_id == b.parent_id
            &&& m.block_type == b.block_type@
            &&& m.content_type == b.block_contents.content_type@
            &&& m.contents == crate::block::opt_view(b.block_contents.contents)
            &&& m.title == crate::block::opt_view(b.block_contents.title)
            &&& m.favorite == b.favorite
            &&& m.created_at_utc == b.created_at_utc.rfc3339@
            &&& m.updated_at_utc == b.updated_at_utc.rfc3339@
            &&& m.block_order == Some(ord as int)
            &&& m.children == spec_children(rows2, b.id, rows2.len() as nat)
        }),
{
    let ord = num_children(rows, b.parent_id) as i32;
    let rows2 = rows.push(row_of_block(b, ord));
    let n = rows.len() as int;
    assert(rows2[n].id == b.id);
    assert(has_id(rows2, b.id));
    let ii = id_index(rows2, b.id);
    assert(0 <= ii < rows2.len() && rows2[ii].id == b.id);
    if ii < n {
        assert(rows2[ii] == rows[ii]);
        assert(false);
    }
    assert(ii == n);
}

} // verus!

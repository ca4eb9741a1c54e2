//! The caption store: the ordered caption collection, a monotonic id
//! allocator, a position-based multi-selection, and the bounded undo/redo
//! history of full-collection snapshots.
//!
//! Every mutating operation either fully succeeds and records exactly one
//! snapshot of the resulting collection, or fails and leaves both state and
//! history unchanged. The history holds at most 100 snapshots; when the
//! bound is exceeded the oldest snapshot is evicted. Recording while the
//! cursor is not at the newest snapshot first discards everything after the
//! cursor, so a fresh mutation destroys the redo branch.
use vstd::prelude::*;
use crate::caption::{Caption, CaptionModel, CaptionStyle, copy_caption, copy_captions};
use crate::text::copy_text;
use crate::digits::dec_spec;
use crate::digits::render_u32;

verus! {

/// The integer view of a sequence of positions.
pub open spec fn to_ints(s: Seq<usize>) -> Seq<int> {
    s.map_values(|x: usize| x as int)
}

/// The mathematical model of a [`CaptionEditor`].
pub struct StoreModel {
    /// The live ordered caption collection.
    pub captions: Seq<CaptionModel>,
    /// Selected positions into the live collection, strictly ascending.
    pub selected: Seq<int>,
    /// Next caption id number; never reused, even after deletion.
    pub nonce: int,
    /// The bounded snapshot history.
    pub history: Seq<Seq<CaptionModel>>,
    /// The history position holding the live collection.
    pub cursor: int,
}

/// Basic shape of the history: nonempty, bounded by 100 snapshots, cursor in
/// range.
pub open spec fn hist_wf(m: StoreModel) -> bool {
    &&& 1 <= m.history.len() <= 100
    &&& 0 <= m.cursor < m.history.len()
}

/// Selection validity: strictly ascending positions into a collection of
/// length `n`.
pub open spec fn sel_wf(sel: Seq<int>, n: int) -> bool {
    &&& forall|i: int| 0 <= i < sel.len() ==> 0 <= #[trigger] sel[i] < n
    &&& forall|i: int, j: int| 0 <= i < j < sel.len() ==> sel[i] < sel[j]
}

impl StoreModel {
    /// The store invariant: well-formed history whose cursor snapshot equals
    /// the live collection, with a valid selection and a non-negative nonce.
    pub open spec fn inv(self) -> bool {
        &&& hist_wf(self)
        &&& self.captions == self.history[self.cursor]
        &&& sel_wf(self.selected, self.captions.len() as int)
        &&& self.nonce >= 0
    }
}

/// Recording a snapshot of the live collection: snapshots after the cursor
/// are discarded, the live collection is appended, and when the bound of 100
/// is exceeded the oldest snapshot is evicted with the cursor adjusted so it
/// still names the same snapshot.
pub open spec fn record_model(m: StoreModel) -> StoreModel {
    let trunc = m.history.subrange(0, m.cursor + 1);
    let pushed = trunc.push(m.captions);
    if pushed.len() <= 100 {
        StoreModel { history: pushed, cursor: m.cursor + 1, ..m }
    } else {
        StoreModel { history: pushed.skip(1), cursor: m.cursor, ..m }
    }
}

/// Moving the cursor one step back, replacing the live collection with the
/// snapshot there and clearing the selection; without room it changes
/// nothing.
pub open spec fn undo_model(m: StoreModel) -> StoreModel {
    if m.cursor > 0 {
        StoreModel {
            captions: m.history[m.cursor - 1],
            selected: Seq::empty(),
            cursor: m.cursor - 1,
            ..m
        }
    } else {
        m
    }
}

/// Moving the cursor one step forward, symmetric to [`undo_model`].
pub open spec fn redo_model(m: StoreModel) -> StoreModel {
    if m.cursor < m.history.len() - 1 {
        StoreModel {
            captions: m.history[m.cursor + 1],
            selected: Seq::empty(),
            cursor: m.cursor + 1,
            ..m
        }
    } else {
        m
    }
}

/// Whether an undo step is available.
pub open spec fn can_undo(m: StoreModel) -> bool {
    m.cursor > 0
}

/// Whether a redo step is available.
pub open spec fn can_redo(m: StoreModel) -> bool {
    m.cursor < m.history.len() - 1
}

/// Recording preserves the history shape; at the bound the oldest snapshot
/// leaves first and every remaining snapshot shifts down one place.
pub proof fn lemma_record_bounded(m: StoreModel)
    requires
        hist_wf(m),
    ensures
        hist_wf(record_model(m)),
        record_model(m).history.len() <= 100,
        record_model(m).captions == m.captions,
        record_model(m).captions == record_model(m).history[record_model(m).cursor],
        m.cursor + 2 > 100 ==> record_model(m).history == m.history.subrange(
            1,
            m.cursor + 1,
        ).push(m.captions),
{
    let trunc = m.history.subrange(0, m.cursor + 1);
    let pushed = trunc.push(m.captions);
    if pushed.len() > 100 {
        assert(pushed.skip(1) =~= m.history.subrange(1, m.cursor + 1).push(m.captions));
    }
}

/// A fresh recording leaves the cursor at the newest snapshot, so no redo
/// step is available: the redo branch is destroyed, never resurrected.
pub proof fn lemma_record_disables_redo(m: StoreModel)
    requires
        hist_wf(m),
    ensures
        record_model(m).cursor == record_model(m).history.len() - 1,
        !can_redo(record_model(m)),
{
}

/// Recording preserves the full invariant whenever the new selection is
/// valid for the new collection.
pub proof fn lemma_record_inv(m: StoreModel)
    requires
        hist_wf(m),
        sel_wf(m.selected, m.captions.len() as int),
        m.nonce >= 0,
    ensures
        record_model(m).inv(),
{
}

/// One mutating edit: the live collection becomes `caps`, the selection is
/// cleared, and one snapshot is recorded.
pub open spec fn edit_step(m: StoreModel, caps: Seq<CaptionModel>) -> StoreModel {
    record_model(StoreModel { captions: caps, selected: Seq::empty(), ..m })
}

/// A sequence of mutating edits applied in order.
pub open spec fn apply_edits(m: StoreModel, es: Seq<Seq<CaptionModel>>) -> StoreModel
    decreases es.len(),
{
    if es.len() == 0 {
        m
    } else {
        apply_edits(edit_step(m, es[0]), es.skip(1))
    }
}

/// `n` undo steps applied in order.
pub open spec fn apply_undos(m: StoreModel, n: nat) -> StoreModel
    decreases n,
{
    if n == 0 {
        m
    } else {
        apply_undos(undo_model(m), (n - 1) as nat)
    }
}

proof fn lemma_apply_edits_shape(m: StoreModel, es: Seq<Seq<CaptionModel>>)
    requires
        hist_wf(m),
        m.cursor + 1 + es.len() <= 100,
    ensures
        es.len() > 0 ==> apply_edits(m, es).history =~= m.history.subrange(0, m.cursor + 1) + es,
        es.len() == 0 ==> apply_edits(m, es) == m,
        apply_edits(m, es).cursor == m.cursor + es.len(),
        hist_wf(apply_edits(m, es)),
    decreases es.len(),
{
    if es.len() > 0 {
        let m1 = edit_step(m, es[0]);
        assert(m1.history =~= m.history.subrange(0, m.cursor + 1).push(es[0]));
        assert(m1.cursor == m.cursor + 1);
        lemma_apply_edits_shape(m1, es.skip(1));
        if es.len() > 1 {
            assert(m1.history.subrange(0, m1.cursor + 1) =~= m1.history);
            assert(m1.history + es.skip(1) =~= m.history.subrange(0, m.cursor + 1) + es);
        } else {
            assert(es.skip(1).len() == 0);
            assert(m1.history =~= m.history.subrange(0, m.cursor + 1) + es);
        }
    }
}

proof fn lemma_apply_undos_shape(m: StoreModel, n: nat)
    requires
        hist_wf(m),
        n <= m.cursor,
    ensures
        apply_undos(m, n).history == m.history,
        apply_undos(m, n).cursor == m.cursor - n,
        n > 0 ==> apply_undos(m, n).captions == m.history[m.cursor - n],
        n == 0 ==> apply_undos(m, n).captions == m.captions,
    decreases n,
{
    if n > 0 {
        let m1 = undo_model(m);
        lemma_apply_undos_shape(m1, (n - 1) as nat);
    }
}

/// Undo reverses edits: after any sequence of mutating edits followed by as
/// many undo steps, the live collection equals what it was at the start,
/// provided the history bound is never reached (with at most 100 snapshots,
/// an edit that evicts the oldest snapshot makes the earliest state
/// unreachable).
pub proof fn lemma_undo_reverses_edits(m: StoreModel, es: Seq<Seq<CaptionModel>>)
    requires
        m.inv(),
        m.cursor + 1 + es.len() <= 100,
    ensures
        apply_undos(apply_edits(m, es), es.len() as nat).captions == m.captions,
{
    lemma_apply_edits_shape(m, es);
    let r = apply_edits(m, es);
    if es.len() > 0 {
        assert(r.history[r.cursor] == es.last());
        lemma_apply_undos_shape(r, es.len() as nat);
        assert(r.history[r.cursor - es.len()] == m.history.subrange(0, m.cursor + 1)[m.cursor]);
    }
}

/// The central entity of the engine: the ordered caption collection, the
/// monotonic id allocator, the selection, and the bounded snapshot history.
pub struct CaptionEditor {
    captions: Vec<Caption>,
    selected_indices: Vec<usize>,
    caption_id_nonce: u32,
    history: Vec<Vec<Caption>>,
    history_index: usize,
}

impl View for CaptionEditor {
    type V = StoreModel;

    closed spec fn view(&self) -> StoreModel {
        StoreModel {
            captions: self.captions.deep_view(),
            selected: to_ints(self.selected_indices@),
            nonce: self.caption_id_nonce as int,
            history: self.history.deep_view(),
            cursor: self.history_index as int,
        }
    }
}

/// The id given to the caption allocated at nonce `n`.
pub open spec fn caption_id_spec(n: int) -> Seq<char> {
    seq!['c', 'a', 'p', 't', 'i', 'o', 'n', '_'] + dec_spec(n)
}

/// Builds the id for nonce `n`.
pub fn make_caption_id(n: u32) -> (out: Vec<char>)
    ensures
        out@ == caption_id_spec(n as int),
{
    let mut out: Vec<char> = Vec::new();
    out.push('c');
    out.push('a');
    out.push('p');
    out.push('t');
    out.push('i');
    out.push('o');
    out.push('n');
    out.push('_');
    let mut digits = render_u32(n);
    out.append(&mut digits);
    proof {
        assert(out@ =~= caption_id_spec(n as int));
    }
    out
}

impl CaptionEditor {
    /// Constructs a store with an empty collection and one empty snapshot at
    /// cursor 0.
    pub fn new() -> (out: CaptionEditor)
        ensures
            out@.inv(),
            out@.captions == Seq::<CaptionModel>::empty(),
            out@.history == seq![Seq::<CaptionModel>::empty()],
            out@.cursor == 0,
            out@.nonce == 0,
            out@.selected == Seq::<int>::empty(),
    {
        let initial: Vec<Caption> = Vec::new();
        let mut history: Vec<Vec<Caption>> = Vec::new();
        history.push(initial);
        let out = CaptionEditor {
            captions: Vec::new(),
            selected_indices: Vec::new(),
            caption_id_nonce: 0,
            history,
            history_index: 0,
        };
        proof {
            assert(out@.captions =~= Seq::<CaptionModel>::empty());
            assert(out@.history =~~= seq![Seq::<CaptionModel>::empty()]);
            assert(out@.selected =~= Seq::<int>::empty());
        }
        out
    }

    /// Records one snapshot of the live collection, per [`record_model`].
    fn record_snapshot(&mut self)
        requires
            hist_wf(old(self)@),
        ensures
            final(self)@ == record_model(old(self)@),
    {
        let ghost m = self@;
        self.history.truncate(self.history_index + 1);
        proof {
            assert(self.history.deep_view() =~~= m.history.subrange(0, m.cursor + 1));
        }
        let snap = copy_captions(&self.captions);
        let ghost trunc = self.history.deep_view();
        self.history.push(snap);
        proof {
            assert(self.history.deep_view() =~~= trunc.push(m.captions));
        }
        if self.history.len() > 100 {
            let ghost pushed = self.history.deep_view();
            let _evicted = self.history.remove(0);
            proof {
                assert(self.history.deep_view() =~~= pushed.skip(1));
                assert(self@ == record_model(m));
            }
        } else {
            self.history_index = self.history_index + 1;
            proof {
                assert(self@ == record_model(m));
            }
        }
    }

    /// Moves the cursor one step back if possible, replacing the live
    /// collection with the snapshot there; returns whether the move
    /// occurred. Records no snapshot itself.
    pub fn undo(&mut self) -> (moved: bool)
        requires
            old(self)@.inv(),
        ensures
            final(self)@.inv(),
            moved == can_undo(old(self)@),
            final(self)@ == undo_model(old(self)@),
    {
        if self.history_index > 0 {
            self.history_index = self.history_index - 1;
            let snap = copy_captions(&self.history[self.history_index]);
            self.captions = snap;
            self.selected_indices = Vec::new();
            proof {
                assert(self@.selected =~= Seq::<int>::empty());
                assert(self@ == undo_model(old(self)@));
            }
            true
        } else {
            false
        }
    }

    /// Moves the cursor one step forward if possible, symmetric to
    /// [`Self::undo`].
    pub fn redo(&mut self) -> (moved: bool)
        requires
            old(self)@.inv(),
        ensures
            final(self)@.inv(),
            moved == can_redo(old(self)@),
            final(self)@ == redo_model(old(self)@),
    {
        if self.history_index < self.history.len() - 1 {
            self.history_index = self.history_index + 1;
            let snap = copy_captions(&self.history[self.history_index]);
            self.captions = snap;
            self.selected_indices = Vec::new();
            proof {
                assert(self@.selected =~= Seq::<int>::empty());
                assert(self@ == redo_model(old(self)@));
            }
            true
        } else {
            false
        }
    }

    /// The live caption collection, in order.
    pub fn get_captions(&self) -> (r: &Vec<Caption>)
        ensures
            r.deep_view() == self@.captions,
    {
        &self.captions
    }

    /// How many snapshots the history currently holds.
    pub fn history_len(&self) -> (r: usize)
        ensures
            r as int == self@.history.len(),
    {
        self.history.len()
    }

    /// The current history cursor.
    pub fn history_cursor(&self) -> (r: usize)
        ensures
            r as int == self@.cursor,
    {
        self.history_index
    }

    /// The next id number to be allocated.
    pub fn id_nonce(&self) -> (r: u32)
        ensures
            r as int == self@.nonce,
    {
        self.caption_id_nonce
    }
}


/// A typed validation failure: the operation changed nothing and recorded no
/// snapshot.
#[derive(Clone, Copy, Debug, PartialEq, Eq, Structural)]
pub enum EditError {
    /// The split point does not lie strictly inside the caption.
    InvalidSplitPoint,
    /// Fewer than two positions are selected for a merge.
    InsufficientSelection,
    /// A requested selection is out of range or not strictly ascending.
    InvalidSelection,
}

/// `c` inserted after every element whose start does not exceed its own, so
/// that equal start times keep their original relative order.
pub open spec fn insert_by_start(c: CaptionModel, s: Seq<CaptionModel>) -> Seq<CaptionModel>
    decreases s.len(),
{
    if s.len() == 0 {
        seq![c]
    } else if s[0].start_ms <= c.start_ms {
        seq![s[0]] + insert_by_start(c, s.skip(1))
    } else {
        seq![c] + s
    }
}

/// Stable sort by start time: elements inserted left to right, each after
/// all elements with a start no greater than its own.
pub open spec fn sort_by_start(s: Seq<CaptionModel>) -> Seq<CaptionModel>
    decreases s.len(),
{
    if s.len() == 0 {
        Seq::empty()
    } else {
        insert_by_start(s.last(), sort_by_start(s.drop_last()))
    }
}

/// Non-decreasing start times.
pub open spec fn sorted_by_start(s: Seq<CaptionModel>) -> bool {
    forall|i: int, j: int| 0 <= i < j < s.len() ==> s[i].start_ms <= s[j].start_ms
}

proof fn lemma_insert_characterization(c: CaptionModel, s: Seq<CaptionModel>, j: int)
    requires
        0 <= j <= s.len(),
        forall|k: int| 0 <= k < j ==> s[k].start_ms <= c.start_ms,
        j == s.len() || s[j].start_ms > c.start_ms,
    ensures
        insert_by_start(c, s) == s.take(j) + seq![c] + s.skip(j),
    decreases j,
{
    if j == 0 {
        if s.len() == 0 {
            assert(insert_by_start(c, s) =~= s.take(0) + seq![c] + s.skip(0));
        } else {
            assert(s.take(0) + seq![c] + s.skip(0) =~= seq![c] + s);
        }
    } else {
        lemma_insert_characterization(c, s.skip(1), j - 1);
        assert(s.skip(1).take(j - 1) =~= s.take(j).skip(1));
        assert(s.skip(1).skip(j - 1) =~= s.skip(j));
        assert(seq![s[0]] + (s.skip(1).take(j - 1) + seq![c] + s.skip(1).skip(j - 1)) =~= s.take(j)
            + seq![c] + s.skip(j));
    }
}

proof fn lemma_insert_sorted(c: CaptionModel, s: Seq<CaptionModel>)
    requires
        sorted_by_start(s),
    ensures
        sorted_by_start(insert_by_start(c, s)),
        insert_by_start(c, s).len() == s.len() + 1,
    decreases s.len(),
{
    if s.len() > 0 && s[0].start_ms <= c.start_ms {
        lemma_insert_sorted(c, s.skip(1));
        let r = seq![s[0]] + insert_by_start(c, s.skip(1));
        assert forall|i: int, j: int| 0 <= i < j < r.len() implies r[i].start_ms
            <= r[j].start_ms by {
            let inner = insert_by_start(c, s.skip(1));
            if i > 0 {
                assert(r[i] == inner[i - 1] && r[j] == inner[j - 1]);
            } else {
                assert(r[j] == inner[j - 1]);
                if j - 1 < inner.len() {
                    lemma_insert_members(c, s.skip(1), j - 1);
                }
            }
        }
    }
}

proof fn lemma_insert_members(c: CaptionModel, s: Seq<CaptionModel>, j: int)
    requires
        sorted_by_start(s),
        0 <= j < insert_by_start(c, s).len(),
    ensures
        insert_by_start(c, s)[j] == c || (s.len() > 0 && insert_by_start(c, s)[j].start_ms
            >= s[0].start_ms),
    decreases s.len(),
{
    if s.len() == 0 {
    } else if s[0].start_ms <= c.start_ms {
        if j > 0 {
            lemma_insert_members(c, s.skip(1), j - 1);
        }
    } else {
    }
}

proof fn lemma_insert_at_end(c: CaptionModel, s: Seq<CaptionModel>)
    requires
        forall|k: int| 0 <= k < s.len() ==> s[k].start_ms <= c.start_ms,
    ensures
        insert_by_start(c, s) == s.push(c),
    decreases s.len(),
{
    if s.len() == 0 {
        assert(insert_by_start(c, s) =~= s.push(c));
    } else {
        lemma_insert_at_end(c, s.skip(1));
        assert(seq![s[0]] + s.skip(1).push(c) =~= s.push(c));
    }
}

/// Sorting yields non-decreasing start times and keeps the length.
pub proof fn lemma_sort_sorted(s: Seq<CaptionModel>)
    ensures
        sorted_by_start(sort_by_start(s)),
        sort_by_start(s).len() == s.len(),
    decreases s.len(),
{
    if s.len() > 0 {
        lemma_sort_sorted(s.drop_last());
        lemma_insert_sorted(s.last(), sort_by_start(s.drop_last()));
    }
}

/// Sorting an already sorted collection changes nothing.
pub proof fn lemma_sort_of_sorted(s: Seq<CaptionModel>)
    requires
        sorted_by_start(s),
    ensures
        sort_by_start(s) == s,
    decreases s.len(),
{
    if s.len() > 0 {
        lemma_sort_of_sorted(s.drop_last());
        lemma_insert_at_end(s.last(), s.drop_last());
        assert(s.drop_last().push(s.last()) =~= s);
    }
}

fn insert_caption_sorted(out: &mut Vec<Caption>, c: Caption)
    requires
        sorted_by_start(old(out).deep_view()),
    ensures
        final(out).deep_view() == insert_by_start(c@, old(out).deep_view()),
        sorted_by_start(final(out).deep_view()),
{
    let ghost s = out.deep_view();
    let mut j: usize = 0;
    while j < out.len() && out[j].start_ms <= c.start_ms
        invariant
            0 <= j <= out.len(),
            out.deep_view() == s,
            forall|k: int| 0 <= k < j ==> s[k].start_ms <= c@.start_ms,
        decreases out.len() - j,
    {
        j += 1;
    }
    proof {
        lemma_insert_characterization(c@, s, j as int);
    }
    out.insert(j, c);
    proof {
        assert(out.deep_view() =~~= s.take(j as int) + seq![c@] + s.skip(j as int));
        assert(sorted_by_start(s));
        lemma_insert_sorted(c@, s);
    }
}

/// Rebuilds `v` in stable start-time order, satisfying [`sort_by_start`].
fn sort_captions(v: &Vec<Caption>) -> (out: Vec<Caption>)
    ensures
        out.deep_view() == sort_by_start(v.deep_view()),
        sorted_by_start(out.deep_view()),
{
    let mut out: Vec<Caption> = Vec::new();
    let mut i: usize = 0;
    proof {
        assert(out.deep_view() =~~= sort_by_start(v.deep_view().take(0)));
    }
    while i < v.len()
        invariant
            0 <= i <= v.len(),
            out.deep_view() == sort_by_start(v.deep_view().take(i as int)),
            sorted_by_start(out.deep_view()),
        decreases v.len() - i,
    {
        let c = copy_caption(&v[i]);
        proof {
            let dv = v.deep_view();
            assert(dv.take(i + 1 as int).drop_last() =~= dv.take(i as int));
            assert(dv.take(i + 1 as int).last() == dv[i as int]);
        }
        insert_caption_sorted(&mut out, c);
        i += 1;
    }
    proof {
        assert(v.deep_view().take(v.deep_view().len() as int) =~= v.deep_view());
    }
    out
}

/// The position of the first caption with identifier `id`, or `-1`.
pub open spec fn find_index(s: Seq<CaptionModel>, id: Seq<char>) -> int
    decreases s.len(),
{
    if s.len() == 0 {
        -1
    } else if s[0].id == id {
        0
    } else if find_index(s.skip(1), id) == -1 {
        -1
    } else {
        find_index(s.skip(1), id) + 1
    }
}

/// Where `find_index` points and what it means.
pub proof fn lemma_find_index_props(s: Seq<CaptionModel>, id: Seq<char>)
    ensures
        -1 <= find_index(s, id) < s.len(),
        find_index(s, id) >= 0 ==> s[find_index(s, id)].id == id,
        find_index(s, id) == -1 ==> forall|k: int| 0 <= k < s.len() ==> s[k].id != id,
    decreases s.len(),
{
    if s.len() > 0 && s[0].id != id {
        lemma_find_index_props(s.skip(1), id);
        if find_index(s, id) == -1 {
            assert forall|k: int| 0 <= k < s.len() implies s[k].id != id by {
                if k > 0 {
                    assert(s.skip(1)[k - 1] == s[k]);
                }
            }
        }
    }
}

proof fn lemma_find_index_at(s: Seq<CaptionModel>, id: Seq<char>, j: int)
    requires
        0 <= j < s.len(),
        s[j].id == id,
        forall|k: int| 0 <= k < j ==> s[k].id != id,
    ensures
        find_index(s, id) == j,
    decreases j,
{
    if j > 0 {
        lemma_find_index_at(s.skip(1), id, j - 1);
    }
}

fn find_caption(v: &Vec<Caption>, id: &Vec<char>) -> (r: Option<usize>)
    ensures
        r is Some <==> find_index(v.deep_view(), id@) >= 0,
        r is Some ==> r->0 as int == find_index(v.deep_view(), id@) && r->0 < v.len(),
{
    let mut i: usize = 0;
    while i < v.len()
        invariant
            0 <= i <= v.len(),
            forall|k: int| 0 <= k < i ==> v.deep_view()[k].id != id@,
        decreases v.len() - i,
    {
        if crate::text::text_eq(&v[i].id, id) {
            proof {
                lemma_find_index_at(v.deep_view(), id@, i as int);
            }
            return Option::Some(i);
        }
        i += 1;
    }
    proof {
        lemma_find_index_props(v.deep_view(), id@);
        if find_index(v.deep_view(), id@) >= 0 {
            let j = find_index(v.deep_view(), id@);
            assert(v.deep_view()[j].id == id@);
        }
    }
    Option::None
}

/// The model of the caption created at nonce `nonce`: empty or given text,
/// full confidence, no speaker, the default style.
pub open spec fn fresh_caption_model(nonce: int, start: int, end: int, text: Seq<char>) -> CaptionModel {
    CaptionModel {
        id: caption_id_spec(nonce),
        start_ms: start,
        end_ms: end,
        text: text,
        speaker: Option::None,
        confidence_milli: 1000,
        style: crate::caption::default_style_spec(),
    }
}

impl CaptionEditor {
    /// Appends a zero-duration caption with empty text at `start_ms`,
    /// allocates the next id, clears the selection and records one snapshot.
    /// The collection is not re-sorted, so the new caption may sit out of
    /// chronological order until its end time is filled in.
    pub fn create_caption(&mut self, start_ms: i32) -> (id: Vec<char>)
        requires
            old(self)@.inv(),
            old(self)@.nonce < 0xffffffff,
        ensures
            final(self)@.inv(),
            id@ == caption_id_spec(old(self)@.nonce),
            final(self)@ == record_model(
                StoreModel {
                    captions: old(self)@.captions.push(
                        fresh_caption_model(old(self)@.nonce, start_ms as int, start_ms as int, Seq::empty()),
                    ),
                    selected: Seq::empty(),
                    nonce: old(self)@.nonce + 1,
                    ..old(self)@
                },
            ),
    {
        let ghost m = self@;
        let id = make_caption_id(self.caption_id_nonce);
        let cap = Caption {
            id: copy_text(&id),
            start_ms,
            end_ms: start_ms,
            text: Vec::new(),
            speaker: Option::None,
            confidence_milli: 1000,
            style: crate::caption::default_style(),
        };
        self.caption_id_nonce = self.caption_id_nonce + 1;
        self.captions.push(cap);
        self.selected_indices = Vec::new();
        let ghost mid = StoreModel {
            captions: m.captions.push(
                fresh_caption_model(m.nonce, start_ms as int, start_ms as int, Seq::empty()),
            ),
            selected: Seq::empty(),
            nonce: m.nonce + 1,
            ..m
        };
        proof {
            assert(self@.captions =~~= mid.captions);
            assert(self@.selected =~= mid.selected);
            assert(self@ == mid);
            lemma_record_inv(mid);
        }
        self.record_snapshot();
        id
    }

    /// Appends a fully specified caption, re-sorts the whole collection by
    /// start time (stable for ties), clears the selection and records one
    /// snapshot.
    pub fn add_caption(&mut self, start_ms: i32, end_ms: i32, text: &Vec<char>)
        requires
            old(self)@.inv(),
            old(self)@.nonce < 0xffffffff,
        ensures
            final(self)@.inv(),
            final(self)@ == record_model(
                StoreModel {
                    captions: sort_by_start(
                        old(self)@.captions.push(
                            fresh_caption_model(old(self)@.nonce, start_ms as int, end_ms as int, text@),
                        ),
                    ),
                    selected: Seq::empty(),
                    nonce: old(self)@.nonce + 1,
                    ..old(self)@
                },
            ),
    {
        let ghost m = self@;
        let cap = Caption {
            id: make_caption_id(self.caption_id_nonce),
            start_ms,
            end_ms,
            text: copy_text(text),
            speaker: Option::None,
            confidence_milli: 1000,
            style: crate::caption::default_style(),
        };
        self.caption_id_nonce = self.caption_id_nonce + 1;
        self.captions.push(cap);
        proof {
            assert(self.captions.deep_view() =~~= m.captions.push(
                fresh_caption_model(m.nonce, start_ms as int, end_ms as int, text@),
            ));
        }
        let sorted = sort_captions(&self.captions);
        self.captions = sorted;
        self.selected_indices = Vec::new();
        let ghost mid = StoreModel {
            captions: sort_by_start(
                m.captions.push(fresh_caption_model(m.nonce, start_ms as int, end_ms as int, text@)),
            ),
            selected: Seq::empty(),
            nonce: m.nonce + 1,
            ..m
        };
        proof {
            assert(self@.selected =~= mid.selected);
            assert(self@ == mid);
            lemma_record_inv(mid);
        }
        self.record_snapshot();
    }

    /// Replaces the text of the caption with identifier `id` and records one
    /// snapshot; when no caption has that id, nothing changes and no
    /// snapshot is recorded (a graceful miss, not an error).
    pub fn update_caption_text(&mut self, id: &Vec<char>, new_text: &Vec<char>)
        requires
            old(self)@.inv(),
        ensures
            final(self)@.inv(),
            ({
                let j = find_index(old(self)@.captions, id@);
                if j >= 0 {
                    final(self)@ == record_model(
                        StoreModel {
                            captions: old(self)@.captions.update(
                                j,
                                CaptionModel { text: new_text@, ..old(self)@.captions[j] },
                            ),
                            ..old(self)@
                        },
                    )
                } else {
                    final(self)@ == old(self)@
                }
            }),
    {
        let ghost m = self@;
        match find_caption(&self.captions, id) {
            Option::Some(j) => {
                let ghost jj = j as int;
                let mut updated = copy_caption(&self.captions[j]);
                updated.text = copy_text(new_text);
                self.captions.set(j, updated);
                let ghost mid = StoreModel {
                    captions: m.captions.update(jj, CaptionModel { text: new_text@, ..m.captions[jj] }),
                    ..m
                };
                proof {
                    assert(self@.captions =~~= mid.captions);
                    assert(self@ == mid);
                    lemma_record_inv(mid);
                }
                self.record_snapshot();
            },
            Option::None => {},
        }
    }

    /// Replaces the timing of the caption with identifier `id` and records
    /// one snapshot; a missing id is a graceful miss. No relation between
    /// the new start and end is enforced: the caller is responsible, and the
    /// analysis operations handle inverted or empty ranges explicitly.
    pub fn update_caption_timing(&mut self, id: &Vec<char>, start_ms: i32, end_ms: i32)
        requires
            old(self)@.inv(),
        ensures
            final(self)@.inv(),
            ({
                let j = find_index(old(self)@.captions, id@);
                if j >= 0 {
                    final(self)@ == record_model(
                        StoreModel {
                            captions: old(self)@.captions.update(
                                j,
                                CaptionModel {
                                    start_ms: start_ms as int,
                                    end_ms: end_ms as int,
                                    ..old(self)@.captions[j]
                                },
                            ),
                            ..old(self)@
                        },
                    )
                } else {
                    final(self)@ == old(self)@
                }
            }),
    {
        let ghost m = self@;
        match find_caption(&self.captions, id) {
            Option::Some(j) => {
                let ghost jj = j as int;
                let mut updated = copy_caption(&self.captions[j]);
                updated.start_ms = start_ms;
                updated.end_ms = end_ms;
                self.captions.set(j, updated);
                let ghost mid = StoreModel {
                    captions: m.captions.update(
                        jj,
                        CaptionModel { start_ms: start_ms as int, end_ms: end_ms as int, ..m.captions[jj] },
                    ),
                    ..m
                };
                proof {
                    assert(self@.captions =~~= mid.captions);
                    assert(self@ == mid);
                    lemma_record_inv(mid);
                }
                self.record_snapshot();
            },
            Option::None => {},
        }
    }

    /// Replaces one caption's style wholesale and records one snapshot; a
    /// missing id changes nothing and records nothing.
    pub fn update_caption_style(&mut self, id: &Vec<char>, style: CaptionStyle)
        requires
            old(self)@.inv(),
        ensures
            final(self)@.inv(),
            ({
                let j = find_index(old(self)@.captions, id@);
                if j >= 0 {
                    final(self)@ == record_model(
                        StoreModel {
                            captions: old(self)@.captions.update(
                                j,
                                CaptionModel { style: style@, ..old(self)@.captions[j] },
                            ),
                            ..old(self)@
                        },
                    )
                } else {
                    final(self)@ == old(self)@
                }
            }),
    {
        let ghost m = self@;
        let ghost sv = style@;
        match find_caption(&self.captions, id) {
            Option::Some(j) => {
                let ghost jj = j as int;
                let mut updated = copy_caption(&self.captions[j]);
                updated.style = style;
                self.captions.set(j, updated);
                let ghost mid = StoreModel {
                    captions: m.captions.update(jj, CaptionModel { style: sv, ..m.captions[jj] }),
                    ..m
                };
                proof {
                    assert(self@.captions =~~= mid.captions);
                    assert(self@ == mid);
                    lemma_record_inv(mid);
                }
                self.record_snapshot();
            },
            Option::None => {},
        }
    }

    /// Replaces every caption's style wholesale; always records one
    /// snapshot, even when the collection is empty.
    pub fn update_global_style(&mut self, style: &CaptionStyle)
        requires
            old(self)@.inv(),
        ensures
            final(self)@.inv(),
            final(self)@ == record_model(
                StoreModel {
                    captions: old(self)@.captions.map_values(
                        |c: CaptionModel| CaptionModel { style: style@, ..c },
                    ),
                    ..old(self)@
                },
            ),
    {
        let ghost m = self@;
        let mut rebuilt: Vec<Caption> = Vec::new();
        let mut i: usize = 0;
        while i < self.captions.len()
            invariant
                0 <= i <= self.captions.len(),
                self.captions.deep_view() == m.captions,
                rebuilt.len() == i,
                forall|k: int|
                    0 <= k < i ==> rebuilt.deep_view()[k] == (CaptionModel {
                        style: style@,
                        ..m.captions[k]
                    }),
            decreases self.captions.len() - i,
        {
            let mut c = copy_caption(&self.captions[i]);
            c.style = crate::caption::copy_style(style);
            let ghost prev = rebuilt.deep_view();
            rebuilt.push(c);
            proof {
                assert forall|k: int|
                    0 <= k < i + 1 implies rebuilt.deep_view()[k] == (CaptionModel {
                    style: style@,
                    ..m.captions[k]
                }) by {
                    if k < i {
                        assert(rebuilt@[k] == rebuilt@.drop_last()[k]);
                        assert(prev[k] == (CaptionModel { style: style@, ..m.captions[k] }));
                    }
                }
            }
            i += 1;
        }
        self.captions = rebuilt;
        let ghost mid = StoreModel {
            captions: m.captions.map_values(|c: CaptionModel| CaptionModel { style: style@, ..c }),
            ..m
        };
        proof {
            assert(self@.captions =~~= mid.captions);
            assert(self@ == mid);
            assert(sel_wf(mid.selected, mid.captions.len() as int));
            lemma_record_inv(mid);
        }
        self.record_snapshot();
    }

    /// Selects positions for a later merge. The positions must be strictly
    /// ascending and in range, else the selection is left unchanged and a
    /// typed failure is returned. Selecting records no snapshot.
    pub fn set_selection(&mut self, positions: &Vec<usize>) -> (r: Result<(), EditError>)
        requires
            old(self)@.inv(),
        ensures
            final(self)@.inv(),
            r is Ok <==> sel_wf(to_ints(positions@), old(self)@.captions.len() as int),
            r is Ok ==> final(self)@ == (StoreModel {
                selected: to_ints(positions@),
                ..old(self)@
            }),
            r is Err ==> final(self)@ == old(self)@ && r == Result::<(), EditError>::Err(
                EditError::InvalidSelection,
            ),
    {
        let ghost ps = to_ints(positions@);
        proof {
            assert(ps.len() == positions@.len());
        }
        let mut i: usize = 0;
        while i < positions.len()
            invariant
                0 <= i <= positions.len(),
                self == old(self),
                old(self)@.inv(),
                ps == to_ints(positions@),
                ps.len() == positions@.len(),
                forall|k: int| 0 <= k < i ==> 0 <= #[trigger] ps[k] < self@.captions.len(),
                forall|k: int| 0 < k < i ==> ps[k - 1] < #[trigger] ps[k],
                self@.captions.len() == self.captions.len(),
            decreases positions.len() - i,
        {
            proof {
                assert(to_ints(positions@)[i as int] == positions@[i as int] as int);
                if i > 0 {
                    assert(to_ints(positions@)[i - 1] == positions@[i - 1] as int);
                }
            }
            if positions[i] >= self.captions.len() {
                proof {
                    assert(ps[i as int] == positions@[i as int] as int);
                    assert(ps[i as int] >= self@.captions.len());
                    assert(!sel_wf(ps, self@.captions.len() as int));
                }
                return Result::Err(EditError::InvalidSelection);
            }
            if i > 0 && positions[i - 1] >= positions[i] {
                proof {
                    assert(ps[i as int] == positions@[i as int] as int);
                    assert(ps[i - 1] == positions@[i - 1] as int);
                    assert(ps[i - 1] >= ps[i as int]);
                    assert(!sel_wf(ps, self@.captions.len() as int));
                }
                return Result::Err(EditError::InvalidSelection);
            }
            i += 1;
        }
        let mut sel: Vec<usize> = Vec::new();
        let mut j: usize = 0;
        while j < positions.len()
            invariant
                0 <= j <= positions.len(),
                sel@ == positions@.take(j as int),
            decreases positions.len() - j,
        {
            sel.push(positions[j]);
            proof {
                assert(sel@ =~= positions@.take(j + 1 as int));
            }
            j += 1;
        }
        proof {
            assert(positions@.take(positions@.len() as int) =~= positions@);
            assert forall|a: int, b: int| 0 <= a < b < ps.len() implies ps[a] < ps[b] by {
                lemma_ascending_chain(ps, a, b);
            }
        }
        self.selected_indices = sel;
        proof {
            assert(self@.selected =~= ps);
            assert(self@ == (StoreModel { selected: ps, ..old(self)@ }));
        }
        Result::Ok(())
    }

    /// Removes every caption whose id appears in `ids` in one pass; ids not
    /// present are ignored. Clears the selection and records one snapshot.
    pub fn delete_captions(&mut self, ids: &Vec<Vec<char>>)
        requires
            old(self)@.inv(),
        ensures
            final(self)@.inv(),
            final(self)@ == record_model(
                StoreModel {
                    captions: remove_ids(old(self)@.captions, ids.deep_view()),
                    selected: Seq::empty(),
                    ..old(self)@
                },
            ),
    {
        let ghost m = self@;
        let kept = retained_from(&self.captions, 0, ids);
        proof {
            assert(self.captions.deep_view().skip(0) =~= m.captions);
        }
        self.captions = kept;
        self.selected_indices = Vec::new();
        let ghost mid = StoreModel {
            captions: remove_ids(m.captions, ids.deep_view()),
            selected: Seq::empty(),
            ..m
        };
        proof {
            assert(self@.selected =~= mid.selected);
            assert(self@ == mid);
            lemma_record_inv(mid);
        }
        self.record_snapshot();
    }
}

/// Consecutive strict ascent implies strict ascent between any two
/// positions.
proof fn lemma_ascending_chain(ps: Seq<int>, a: int, b: int)
    requires
        forall|k: int| 0 < k < ps.len() ==> ps[k - 1] < #[trigger] ps[k],
        0 <= a < b < ps.len(),
    ensures
        ps[a] < ps[b],
    decreases b - a,
{
    if b > a + 1 {
        lemma_ascending_chain(ps, a, b - 1);
    }
}

/// `s` without every caption whose id appears in `ids`, order kept.
pub open spec fn remove_ids(s: Seq<CaptionModel>, ids: Seq<Seq<char>>) -> Seq<CaptionModel>
    decreases s.len(),
{
    if s.len() == 0 {
        Seq::empty()
    } else if ids.contains(s[0].id) {
        remove_ids(s.skip(1), ids)
    } else {
        seq![s[0]] + remove_ids(s.skip(1), ids)
    }
}

fn contains_id(ids: &Vec<Vec<char>>, id: &Vec<char>) -> (r: bool)
    ensures
        r == ids.deep_view().contains(id@),
{
    let mut i: usize = 0;
    while i < ids.len()
        invariant
            0 <= i <= ids.len(),
            forall|k: int| 0 <= k < i ==> ids.deep_view()[k] != id@,
        decreases ids.len() - i,
    {
        let hit = crate::text::text_eq(&ids[i], id);
        proof {
            assert(ids.deep_view()[i as int] == ids@[i as int]@);
        }
        if hit {
            proof {
                assert(ids.deep_view()[i as int] == id@);
            }
            return true;
        }
        i += 1;
    }
    proof {
        if ids.deep_view().contains(id@) {
            let w = choose|w: int| 0 <= w < ids.deep_view().len() && ids.deep_view()[w] == id@;
            assert(ids.deep_view()[w] != id@);
        }
    }
    false
}

fn retained_from(v: &Vec<Caption>, i: usize, ids: &Vec<Vec<char>>) -> (out: Vec<Caption>)
    requires
        i <= v.len(),
    ensures
        out.deep_view() == remove_ids(v.deep_view().skip(i as int), ids.deep_view()),
    decreases v.len() - i,
{
    proof {
        assert(v.deep_view().skip(i as int).len() == v.len() - i);
    }
    if i == v.len() {
        let out: Vec<Caption> = Vec::new();
        proof {
            assert(out.deep_view() =~~= remove_ids(v.deep_view().skip(i as int), ids.deep_view()));
        }
        out
    } else {
        let keep = !contains_id(ids, &v[i].id);
        let mut out = retained_from(v, i + 1, ids);
        proof {
            let suf = v.deep_view().skip(i as int);
            assert(suf[0] == v.deep_view()[i as int]);
            assert(suf.skip(1) =~= v.deep_view().skip(i + 1));
        }
        if keep {
            out.insert(0, copy_caption(&v[i]));
            proof {
                let suf = v.deep_view().skip(i as int);
                assert(out.deep_view() =~~= seq![suf[0]] + remove_ids(suf.skip(1), ids.deep_view()));
            }
        }
        out
    }
}


/// A caption with both times moved by `d`.
pub open spec fn shifted_caption(c: CaptionModel, d: int) -> CaptionModel {
    CaptionModel { start_ms: c.start_ms + d, end_ms: c.end_ms + d, ..c }
}

/// `x` scaled by `f` thousandths, truncated toward zero.
pub open spec fn stretch_val(x: int, f: int) -> int {
    if x >= 0 {
        (x * f) / 1000
    } else {
        -(((-x) * f) / 1000)
    }
}

/// A caption with both times stretched by `f` thousandths.
pub open spec fn stretched_caption(c: CaptionModel, f: int) -> CaptionModel {
    CaptionModel {
        start_ms: stretch_val(c.start_ms, f),
        end_ms: stretch_val(c.end_ms, f),
        ..c
    }
}

/// The suffix appended to a split caption's derived id.
pub open spec fn split_suffix() -> Seq<char> {
    seq!['_', 's', 'p', 'l', 'i', 't']
}

/// The collection after splitting the caption at position `j` at time `at`:
/// the text splits at the word index proportional to the elapsed time
/// fraction (rounded down); the first half keeps the id and ends at `at`,
/// the second half starts at `at` under the derived id.
pub open spec fn split_result(s: Seq<CaptionModel>, j: int, at: int) -> Seq<CaptionModel> {
    let c = s[j];
    let w = crate::text::words_spec(c.text);
    let k = (w.len() * (at - c.start_ms)) / (c.end_ms - c.start_ms);
    let first = CaptionModel { end_ms: at, text: crate::text::join_spec(w.take(k), ' '), ..c };
    let second = CaptionModel {
        id: c.id + split_suffix(),
        start_ms: at,
        text: crate::text::join_spec(w.skip(k), ' '),
        ..c
    };
    s.update(j, first).insert(j + 1, second)
}

/// The texts at the selected positions, in selection order.
pub open spec fn selected_texts(s: Seq<CaptionModel>, sel: Seq<int>) -> Seq<Seq<char>> {
    sel.map_values(|i: int| s[i].text)
}

/// `s` with the positions `ps` (strictly ascending) removed, largest first.
pub open spec fn remove_positions(s: Seq<CaptionModel>, ps: Seq<int>) -> Seq<CaptionModel>
    decreases ps.len(),
{
    if ps.len() == 0 {
        s
    } else {
        remove_positions(s.remove(ps.last()), ps.drop_last())
    }
}

/// The collection after merging the selected captions: the first selected
/// caption takes the space-joined texts of all selected captions and the
/// last selected caption's end time; the other selected captions leave.
pub open spec fn merge_result(s: Seq<CaptionModel>, sel: Seq<int>) -> Seq<CaptionModel> {
    let first = sel[0];
    let last = sel[sel.len() - 1];
    let merged = CaptionModel {
        text: crate::text::join_spec(selected_texts(s, sel), ' '),
        end_ms: s[last].end_ms,
        ..s[first]
    };
    remove_positions(s.update(first, merged), sel.skip(1))
}

/// Strict ascent gives at least unit gaps.
proof fn lemma_ascending_gap(ps: Seq<int>, a: int, b: int)
    requires
        forall|i: int, j: int| 0 <= i < j < ps.len() ==> ps[i] < ps[j],
        0 <= a <= b < ps.len(),
    ensures
        ps[a] <= ps[b] - (b - a),
    decreases b - a,
{
    if b > a {
        lemma_ascending_gap(ps, a, b - 1);
    }
}

impl CaptionEditor {
    /// Adds `shift_ms` to every caption's start and end; times may become
    /// negative, nothing is clamped. Records one snapshot.
    pub fn shift_all_captions(&mut self, shift_ms: i32)
        requires
            old(self)@.inv(),
            forall|k: int|
                0 <= k < old(self)@.captions.len() ==> -0x80000000 <= (
                #[trigger] old(self)@.captions[k]).start_ms + shift_ms <= 0x7fffffff
                    && -0x80000000 <= old(self)@.captions[k].end_ms + shift_ms <= 0x7fffffff,
        ensures
            final(self)@.inv(),
            final(self)@ == record_model(
                StoreModel {
                    captions: old(self)@.captions.map_values(
                        |c: CaptionModel| shifted_caption(c, shift_ms as int),
                    ),
                    ..old(self)@
                },
            ),
    {
        let ghost m = self@;
        let mut rebuilt: Vec<Caption> = Vec::new();
        let mut i: usize = 0;
        while i < self.captions.len()
            invariant
                0 <= i <= self.captions.len(),
                self.captions.deep_view() == m.captions,
                forall|k: int|
                    0 <= k < m.captions.len() ==> -0x80000000 <= (
                    #[trigger] m.captions[k]).start_ms + shift_ms <= 0x7fffffff && -0x80000000
                        <= m.captions[k].end_ms + shift_ms <= 0x7fffffff,
                rebuilt.len() == i,
                forall|k: int|
                    0 <= k < i ==> rebuilt.deep_view()[k] == shifted_caption(
                        m.captions[k],
                        shift_ms as int,
                    ),
            decreases self.captions.len() - i,
        {
            let mut c = copy_caption(&self.captions[i]);
            proof {
                assert(c@ == m.captions[i as int]);
            }
            c.start_ms = c.start_ms + shift_ms;
            c.end_ms = c.end_ms + shift_ms;
            let ghost prev = rebuilt.deep_view();
            rebuilt.push(c);
            proof {
                assert forall|k: int|
                    0 <= k < i + 1 implies rebuilt.deep_view()[k] == shifted_caption(
                    m.captions[k],
                    shift_ms as int,
                ) by {
                    if k < i {
                        assert(rebuilt@[k] == rebuilt@.drop_last()[k]);
                        assert(prev[k] == shifted_caption(m.captions[k], shift_ms as int));
                    }
                }
            }
            i += 1;
        }
        self.captions = rebuilt;
        let ghost mid = StoreModel {
            captions: m.captions.map_values(|c: CaptionModel| shifted_caption(c, shift_ms as int)),
            ..m
        };
        proof {
            assert(self@.captions =~~= mid.captions);
            assert(self@ == mid);
            lemma_record_inv(mid);
        }
        self.record_snapshot();
    }

    /// Multiplies every caption's start and end by `factor_milli`
    /// thousandths, truncating toward zero to integer milliseconds. Records
    /// one snapshot.
    pub fn stretch_captions(&mut self, factor_milli: u32)
        requires
            old(self)@.inv(),
            forall|k: int|
                0 <= k < old(self)@.captions.len() ==> -0x80000000 <= stretch_val(
                    (#[trigger] old(self)@.captions[k]).start_ms,
                    factor_milli as int,
                ) <= 0x7fffffff && -0x80000000 <= stretch_val(
                    old(self)@.captions[k].end_ms,
                    factor_milli as int,
                ) <= 0x7fffffff,
        ensures
            final(self)@.inv(),
            final(self)@ == record_model(
                StoreModel {
                    captions: old(self)@.captions.map_values(
                        |c: CaptionModel| stretched_caption(c, factor_milli as int),
                    ),
                    ..old(self)@
                },
            ),
    {
        let ghost m = self@;
        let mut rebuilt: Vec<Caption> = Vec::new();
        let mut i: usize = 0;
        while i < self.captions.len()
            invariant
                0 <= i <= self.captions.len(),
                self.captions.deep_view() == m.captions,
                forall|k: int|
                    0 <= k < m.captions.len() ==> -0x80000000 <= stretch_val(
                        (#[trigger] m.captions[k]).start_ms,
                        factor_milli as int,
                    ) <= 0x7fffffff && -0x80000000 <= stretch_val(
                        m.captions[k].end_ms,
                        factor_milli as int,
                    ) <= 0x7fffffff,
                rebuilt.len() == i,
                forall|k: int|
                    0 <= k < i ==> rebuilt.deep_view()[k] == stretched_caption(
                        m.captions[k],
                        factor_milli as int,
                    ),
            decreases self.captions.len() - i,
        {
            let mut c = copy_caption(&self.captions[i]);
            proof {
                assert(c@ == m.captions[i as int]);
            }
            c.start_ms = stretch_ms(c.start_ms, factor_milli);
            c.end_ms = stretch_ms(c.end_ms, factor_milli);
            let ghost prev = rebuilt.deep_view();
            rebuilt.push(c);
            proof {
                assert forall|k: int|
                    0 <= k < i + 1 implies rebuilt.deep_view()[k] == stretched_caption(
                    m.captions[k],
                    factor_milli as int,
                ) by {
                    if k < i {
                        assert(rebuilt@[k] == rebuilt@.drop_last()[k]);
                        assert(prev[k] == stretched_caption(m.captions[k], factor_milli as int));
                    }
                }
            }
            i += 1;
        }
        self.captions = rebuilt;
        let ghost mid = StoreModel {
            captions: m.captions.map_values(
                |c: CaptionModel| stretched_caption(c, factor_milli as int),
            ),
            ..m
        };
        proof {
            assert(self@.captions =~~= mid.captions);
            assert(self@ == mid);
            lemma_record_inv(mid);
        }
        self.record_snapshot();
    }

    /// Splits the caption with identifier `caption_id` at `split_time_ms`,
    /// which must lie strictly inside the caption, else the operation fails
    /// with a typed failure and changes nothing. The text splits at the
    /// whitespace-word index proportional to the elapsed time fraction,
    /// rounded down, so one half may be empty. A missing id is a graceful
    /// miss: nothing changes and no snapshot is recorded. On success the
    /// selection is cleared and one snapshot is recorded.
    pub fn split_caption(&mut self, caption_id: &Vec<char>, split_time_ms: i32) -> (r: Result<
        (),
        EditError,
    >)
        requires
            old(self)@.inv(),
        ensures
            final(self)@.inv(),
            ({
                let j = find_index(old(self)@.captions, caption_id@);
                let c = old(self)@.captions[j];
                if j < 0 {
                    r is Ok && final(self)@ == old(self)@
                } else if !(c.start_ms < split_time_ms as int && (split_time_ms as int) < c.end_ms) {
                    r == Result::<(), EditError>::Err(EditError::InvalidSplitPoint)
                        && final(self)@ == old(self)@
                } else {
                    r is Ok && final(self)@ == record_model(
                        StoreModel {
                            captions: split_result(old(self)@.captions, j, split_time_ms as int),
                            selected: Seq::empty(),
                            ..old(self)@
                        },
                    )
                }
            }),
    {
        let ghost m = self@;
        let j = match find_caption(&self.captions, caption_id) {
            Option::Some(j) => j,
            Option::None => {
                return Result::Ok(());
            },
        };
        let ghost jj = j as int;
        let start = self.captions[j].start_ms;
        let end = self.captions[j].end_ms;
        if !(start < split_time_ms && split_time_ms < end) {
            return Result::Err(EditError::InvalidSplitPoint);
        }
        let words = crate::text::split_words(&self.captions[j].text);
        let diff: u128 = (split_time_ms as i64 - start as i64) as u128;
        proof {
            assert((words.len() as int) * (diff as int) < 0x10000000000000000 * 0x100000000)
                by (nonlinear_arith)
                requires
                    0 <= words.len() < 0x10000000000000000,
                    0 <= diff < 0x100000000,
            ;
        }
        let num: u128 = (words.len() as u128) * diff;
        let den: u128 = (end as i64 - start as i64) as u128;
        let k_wide: u128 = num / den;
        proof {
            let w = crate::text::words_spec(m.captions[jj].text);
            let atd = split_time_ms - m.captions[jj].start_ms;
            let dur = m.captions[jj].end_ms - m.captions[jj].start_ms;
            assert(w.len() * atd <= w.len() * dur) by (nonlinear_arith)
                requires
                    0 < atd <= dur,
                    w.len() >= 0,
            ;
            assert((w.len() * atd) / dur <= (w.len() * dur) / dur) by (nonlinear_arith)
                requires
                    w.len() * atd <= w.len() * dur,
                    dur > 0,
            ;
            assert((w.len() * dur) / dur == w.len()) by (nonlinear_arith)
                requires
                    dur > 0,
            ;
            assert(k_wide == (w.len() * atd) / dur);
        }
        let k = k_wide as usize;
        let first_words = slice_words(&words, 0, k);
        let second_words = slice_words(&words, k, words.len());
        let first_text = crate::text::join_texts(&first_words, ' ');
        let second_text = crate::text::join_texts(&second_words, ' ');
        let mut first = copy_caption(&self.captions[j]);
        first.end_ms = split_time_ms;
        first.text = first_text;
        let mut second = copy_caption(&self.captions[j]);
        let mut second_id = copy_text(&self.captions[j].id);
        second_id.push('_');
        second_id.push('s');
        second_id.push('p');
        second_id.push('l');
        second_id.push('i');
        second_id.push('t');
        proof {
            assert(second_id@ =~= m.captions[jj].id + split_suffix());
        }
        second.id = second_id;
        second.start_ms = split_time_ms;
        second.text = second_text;
        proof {
            let w = crate::text::words_spec(m.captions[jj].text);
            let k_spec = (w.len() * (split_time_ms - m.captions[jj].start_ms)) / (
            m.captions[jj].end_ms - m.captions[jj].start_ms);
            assert(w.take(k_spec) =~= w.subrange(0, k_spec));
            assert(w.skip(k_spec) =~= w.subrange(k_spec, w.len() as int));
        }
        self.captions.set(j, first);
        self.captions.insert(j + 1, second);
        self.selected_indices = Vec::new();
        let ghost mid = StoreModel {
            captions: split_result(m.captions, jj, split_time_ms as int),
            selected: Seq::empty(),
            ..m
        };
        proof {
            assert(self@.captions =~~= mid.captions);
            assert(self@.selected =~= mid.selected);
            assert(self@ == mid);
            lemma_record_inv(mid);
        }
        self.record_snapshot();
        Result::Ok(())
    }

    /// Merges the selected captions: their texts are joined with single
    /// spaces in position order, the first selected caption takes the merged
    /// text, the last selected caption's end time and keeps its id, and the
    /// other selected captions are removed. Fails with a typed failure and
    /// changes nothing when fewer than two positions are selected. Clears
    /// the selection and records one snapshot on success.
    pub fn merge_selected(&mut self) -> (r: Result<(), EditError>)
        requires
            old(self)@.inv(),
        ensures
            final(self)@.inv(),
            old(self)@.selected.len() < 2 ==> r == Result::<(), EditError>::Err(
                EditError::InsufficientSelection,
            ) && final(self)@ == old(self)@,
            old(self)@.selected.len() >= 2 ==> r is Ok && final(self)@ == record_model(
                StoreModel {
                    captions: merge_result(old(self)@.captions, old(self)@.selected),
                    selected: Seq::empty(),
                    ..old(self)@
                },
            ),
    {
        let ghost m = self@;
        let ghost sel = m.selected;
        if self.selected_indices.len() < 2 {
            return Result::Err(EditError::InsufficientSelection);
        }
        let sel_len = self.selected_indices.len();
        let mut texts: Vec<Vec<char>> = Vec::new();
        let mut t: usize = 0;
        while t < sel_len
            invariant
                0 <= t <= sel_len,
                sel_len == self.selected_indices.len(),
                self == old(self),
                old(self)@.inv(),
                m == self@,
                sel == m.selected,
                texts.len() == t,
                forall|k: int| 0 <= k < t ==> texts.deep_view()[k] == m.captions[sel[k]].text,
            decreases sel_len - t,
        {
            let pos = self.selected_indices[t];
            proof {
                assert(to_ints(self.selected_indices@)[t as int] == pos as int);
                assert(0 <= sel[t as int] < m.captions.len());
            }
            let piece = copy_text(&self.captions[pos].text);
            let ghost prev = texts.deep_view();
            texts.push(piece);
            proof {
                assert forall|k: int|
                    0 <= k < t + 1 implies texts.deep_view()[k] == m.captions[sel[k]].text by {
                    if k < t {
                        assert(texts@[k] == texts@.drop_last()[k]);
                        assert(prev[k] == m.captions[sel[k]].text);
                    }
                }
            }
            t += 1;
        }
        proof {
            assert(texts.deep_view() =~~= selected_texts(m.captions, sel));
        }
        let merged_text = crate::text::join_texts(&texts, ' ');
        let first_idx = self.selected_indices[0];
        let last_idx = self.selected_indices[sel_len - 1];
        proof {
            assert(to_ints(self.selected_indices@)[0] == first_idx as int);
            assert(to_ints(self.selected_indices@)[sel_len - 1] == last_idx as int);
            assert(0 <= sel[0] < m.captions.len());
            assert(0 <= sel[sel_len - 1] < m.captions.len());
        }
        let mut merged = copy_caption(&self.captions[first_idx]);
        merged.text = merged_text;
        merged.end_ms = self.captions[last_idx].end_ms;
        self.captions.set(first_idx, merged);
        let ghost base = m.captions.update(
            sel[0],
            CaptionModel {
                text: crate::text::join_spec(selected_texts(m.captions, sel), ' '),
                end_ms: m.captions[sel[sel.len() - 1]].end_ms,
                ..m.captions[sel[0]]
            },
        );
        proof {
            assert(self.captions.deep_view() =~~= base);
        }
        let mut k = sel_len;
        while k > 1
            invariant
                1 <= k <= sel_len,
                sel_len == self.selected_indices.len(),
                sel_len == sel.len(),
                sel == to_ints(self.selected_indices@),
                sel.len() >= 2,
                forall|a: int, b: int| 0 <= a < b < sel.len() ==> sel[a] < sel[b],
                forall|a: int| 0 <= a < sel.len() ==> 0 <= #[trigger] sel[a] < base.len(),
                base.len() == m.captions.len(),
                self@.history == m.history,
                self@.nonce == m.nonce,
                self@.cursor == m.cursor,
                hist_wf(m),
                m.nonce >= 0,
                self.captions.len() == base.len() - (sel_len - k),
                remove_positions(self.captions.deep_view(), sel.subrange(1, k as int))
                    == remove_positions(base, sel.subrange(1, sel.len() as int)),
            decreases k,
        {
            k = k - 1;
            let pos = self.selected_indices[k];
            proof {
                assert(to_ints(self.selected_indices@)[k as int] == pos as int);
                lemma_ascending_gap(sel, k as int, sel.len() - 1);
                assert(sel[k as int] <= sel[sel.len() - 1] - (sel.len() - 1 - k));
                assert(pos < self.captions.len());
            }
            let ghost cur = self.captions.deep_view();
            let _removed = self.captions.remove(pos);
            proof {
                assert(self.captions.deep_view() =~~= cur.remove(pos as int));
                let ps = sel.subrange(1, k + 1 as int);
                assert(ps.last() == sel[k as int]);
                assert(ps.drop_last() =~= sel.subrange(1, k as int));
                assert(remove_positions(cur, ps) == remove_positions(
                    cur.remove(sel[k as int]),
                    sel.subrange(1, k as int),
                ));
            }
        }
        self.selected_indices = Vec::new();
        let ghost mid = StoreModel {
            captions: merge_result(m.captions, sel),
            selected: Seq::empty(),
            ..m
        };
        proof {
            assert(sel.subrange(1, 1) =~= Seq::<int>::empty());
            assert(remove_positions(self.captions.deep_view(), sel.subrange(1, 1))
                == self.captions.deep_view());
            assert(sel.skip(1) =~= sel.subrange(1, sel.len() as int));
            assert(self@.captions == merge_result(m.captions, sel));
            assert(self@.selected =~= Seq::<int>::empty());
            assert(self@ == mid);
            lemma_record_inv(mid);
        }
        self.record_snapshot();
        Result::Ok(())
    }
}

/// Truncating scale of one time by `f` thousandths, matching
/// [`stretch_val`].
fn stretch_ms(x: i32, f: u32) -> (r: i32)
    requires
        -0x80000000 <= stretch_val(x as int, f as int) <= 0x7fffffff,
    ensures
        r as int == stretch_val(x as int, f as int),
{
    if x >= 0 {
        let wide: u128 = (x as u128) * (f as u128) / 1000;
        proof {
            assert((x as int) * (f as int) / 1000 <= 0x7fffffff);
        }
        wide as i32
    } else {
        let mag: u128 = (-(x as i64)) as u128;
        let wide: u128 = mag * (f as u128) / 1000;
        proof {
            assert((-(x as int)) * (f as int) / 1000 <= 0x80000000);
        }
        let neg: i64 = -(wide as i64);
        neg as i32
    }
}

/// Copies the element range `[a, b)` of a text list.
pub(crate) fn slice_words(ws: &Vec<Vec<char>>, a: usize, b: usize) -> (out: Vec<Vec<char>>)
    requires
        a <= b <= ws.len(),
    ensures
        out.deep_view() == ws.deep_view().subrange(a as int, b as int),
{
    let mut out: Vec<Vec<char>> = Vec::new();
    let mut j: usize = a;
    while j < b
        invariant
            a <= j <= b <= ws.len(),
            out.len() == j - a,
            forall|k: int| 0 <= k < j - a ==> out.deep_view()[k] == ws.deep_view()[a + k],
        decreases b - j,
    {
        let piece = copy_text(&ws[j]);
        let ghost prev = out.deep_view();
        out.push(piece);
        proof {
            assert forall|k: int|
                0 <= k < j + 1 - a implies out.deep_view()[k] == ws.deep_view()[a + k] by {
                if k < j - a {
                    assert(out@[k] == out@.drop_last()[k]);
                    assert(prev[k] == ws.deep_view()[a + k]);
                }
            }
        }
        j += 1;
    }
    proof {
        assert(out.deep_view() =~~= ws.deep_view().subrange(a as int, b as int));
    }
    out
}


/// A reading-speed warning kind.
#[derive(Clone, Copy, Debug, PartialEq, Eq, Structural)]
pub enum SpeedKind {
    /// Over 20 characters per second.
    TooFast,
    /// Under 5 characters per second with more than 10 characters.
    TooSlow,
}

/// The warning a caption earns, if any: characters-per-second is the exact
/// rational `chars * 1000 / duration_ms`; over 20 it is too fast, under 5 it
/// is too slow unless the caption has at most 10 characters. A caption with
/// zero or negative duration and any text counts as too fast (unbounded
/// speed); an empty such caption earns nothing.
pub open spec fn speed_kind(c: CaptionModel) -> Option<SpeedKind> {
    let dur = c.end_ms - c.start_ms;
    let n = c.text.len() as int;
    if dur <= 0 {
        if n > 0 {
            Option::Some(SpeedKind::TooFast)
        } else {
            Option::None
        }
    } else if n * 1000 > 20 * dur {
        Option::Some(SpeedKind::TooFast)
    } else if n * 1000 < 5 * dur && n > 10 {
        Option::Some(SpeedKind::TooSlow)
    } else {
        Option::None
    }
}

/// The warnings over a collection: position and kind, in position order.
pub open spec fn warnings_spec(s: Seq<CaptionModel>) -> Seq<(int, SpeedKind)>
    decreases s.len(),
{
    if s.len() == 0 {
        Seq::empty()
    } else {
        warnings_spec(s.drop_last()) + (match speed_kind(s.last()) {
            Option::Some(k) => seq![(s.len() - 1, k)],
            Option::None => Seq::empty(),
        })
    }
}

/// The integer view of warning positions.
pub open spec fn warn_ints(s: Seq<(usize, SpeedKind)>) -> Seq<(int, SpeedKind)> {
    s.map_values(|p: (usize, SpeedKind)| (p.0 as int, p.1))
}

/// Whether two captions' time intervals overlap, by strict half-open
/// comparison.
pub open spec fn overlap(a: CaptionModel, b: CaptionModel) -> bool {
    a.end_ms > b.start_ms && a.start_ms < b.end_ms
}

impl CaptionEditor {
    /// Applies one pass of punctuation cleanup to every caption's text and
    /// records one snapshot.
    pub fn auto_punctuate(&mut self)
        requires
            old(self)@.inv(),
        ensures
            final(self)@.inv(),
            final(self)@ == record_model(
                StoreModel {
                    captions: old(self)@.captions.map_values(
                        |c: CaptionModel| CaptionModel {
                            text: crate::edits::punctuate_spec(c.text),
                            ..c
                        },
                    ),
                    ..old(self)@
                },
            ),
    {
        let ghost m = self@;
        let mut rebuilt: Vec<Caption> = Vec::new();
        let mut i: usize = 0;
        while i < self.captions.len()
            invariant
                0 <= i <= self.captions.len(),
                self.captions.deep_view() == m.captions,
                rebuilt.len() == i,
                forall|k: int|
                    0 <= k < i ==> rebuilt.deep_view()[k] == (CaptionModel {
                        text: crate::edits::punctuate_spec(m.captions[k].text),
                        ..m.captions[k]
                    }),
            decreases self.captions.len() - i,
        {
            let mut c = copy_caption(&self.captions[i]);
            c.text = crate::edits::punctuate_text(&self.captions[i].text);
            let ghost prev = rebuilt.deep_view();
            rebuilt.push(c);
            proof {
                assert forall|k: int|
                    0 <= k < i + 1 implies rebuilt.deep_view()[k] == (CaptionModel {
                    text: crate::edits::punctuate_spec(m.captions[k].text),
                    ..m.captions[k]
                }) by {
                    if k < i {
                        assert(rebuilt@[k] == rebuilt@.drop_last()[k]);
                        assert(prev[k] == (CaptionModel {
                            text: crate::edits::punctuate_spec(m.captions[k].text),
                            ..m.captions[k]
                        }));
                    }
                }
            }
            i += 1;
        }
        self.captions = rebuilt;
        let ghost mid = StoreModel {
            captions: m.captions.map_values(
                |c: CaptionModel| CaptionModel { text: crate::edits::punctuate_spec(c.text), ..c },
            ),
            ..m
        };
        proof {
            assert(self@.captions =~~= mid.captions);
            assert(self@ == mid);
            lemma_record_inv(mid);
        }
        self.record_snapshot();
    }

    /// Literal substring replacement across every caption's text, scanning
    /// left to right with non-overlapping matches; the case-insensitive mode
    /// finds matches independent of case, comparing the Unicode lowercase
    /// fold of each character, but substitutes the literal replacement. An
    /// empty pattern replaces nothing. Records one snapshot.
    pub fn find_replace(&mut self, find: &Vec<char>, replace: &Vec<char>, case_sensitive: bool)
        requires
            old(self)@.inv(),
        ensures
            final(self)@.inv(),
            final(self)@ == record_model(
                StoreModel {
                    captions: old(self)@.captions.map_values(
                        |c: CaptionModel| CaptionModel {
                            text: crate::text::replace_text_spec(
                                c.text,
                                find@,
                                replace@,
                                !case_sensitive,
                            ),
                            ..c
                        },
                    ),
                    ..old(self)@
                },
            ),
    {
        let ghost m = self@;
        let mut rebuilt: Vec<Caption> = Vec::new();
        let mut i: usize = 0;
        while i < self.captions.len()
            invariant
                0 <= i <= self.captions.len(),
                self.captions.deep_view() == m.captions,
                rebuilt.len() == i,
                forall|k: int|
                    0 <= k < i ==> rebuilt.deep_view()[k] == (CaptionModel {
                        text: crate::text::replace_text_spec(
                            m.captions[k].text,
                            find@,
                            replace@,
                            !case_sensitive,
                        ),
                        ..m.captions[k]
                    }),
            decreases self.captions.len() - i,
        {
            let mut c = copy_caption(&self.captions[i]);
            c.text = crate::text::replace_text(
                &self.captions[i].text,
                find,
                replace,
                !case_sensitive,
            );
            let ghost prev = rebuilt.deep_view();
            rebuilt.push(c);
            proof {
                assert forall|k: int|
                    0 <= k < i + 1 implies rebuilt.deep_view()[k] == (CaptionModel {
                    text: crate::text::replace_text_spec(
                        m.captions[k].text,
                        find@,
                        replace@,
                        !case_sensitive,
                    ),
                    ..m.captions[k]
                }) by {
                    if k < i {
                        assert(rebuilt@[k] == rebuilt@.drop_last()[k]);
                        assert(prev[k] == (CaptionModel {
                            text: crate::text::replace_text_spec(
                                m.captions[k].text,
                                find@,
                                replace@,
                                !case_sensitive,
                            ),
                            ..m.captions[k]
                        }));
                    }
                }
            }
            i += 1;
        }
        self.captions = rebuilt;
        let ghost mid = StoreModel {
            captions: m.captions.map_values(
                |c: CaptionModel| CaptionModel {
                    text: crate::text::replace_text_spec(c.text, find@, replace@, !case_sensitive),
                    ..c
                },
            ),
            ..m
        };
        proof {
            assert(self@.captions =~~= mid.captions);
            assert(self@ == mid);
            lemma_record_inv(mid);
        }
        self.record_snapshot();
    }

    /// Replaces each word of the fixed profanity list, and its
    /// leading-capital form only, in every caption's text by a `"[bleep]"`
    /// token or a run of `*` as long as the word. Records one snapshot.
    pub fn apply_profanity_filter(&mut self, bleep: bool)
        requires
            old(self)@.inv(),
        ensures
            final(self)@.inv(),
            final(self)@ == record_model(
                StoreModel {
                    captions: old(self)@.captions.map_values(
                        |c: CaptionModel| CaptionModel {
                            text: crate::edits::profanity_spec(c.text, bleep),
                            ..c
                        },
                    ),
                    ..old(self)@
                },
            ),
    {
        let ghost m = self@;
        let mut rebuilt: Vec<Caption> = Vec::new();
        let mut i: usize = 0;
        while i < self.captions.len()
            invariant
                0 <= i <= self.captions.len(),
                self.captions.deep_view() == m.captions,
                rebuilt.len() == i,
                forall|k: int|
                    0 <= k < i ==> rebuilt.deep_view()[k] == (CaptionModel {
                        text: crate::edits::profanity_spec(m.captions[k].text, bleep),
                        ..m.captions[k]
                    }),
            decreases self.captions.len() - i,
        {
            let mut c = copy_caption(&self.captions[i]);
            c.text = crate::edits::filter_profanity_text(&self.captions[i].text, bleep);
            let ghost prev = rebuilt.deep_view();
            rebuilt.push(c);
            proof {
                assert forall|k: int|
                    0 <= k < i + 1 implies rebuilt.deep_view()[k] == (CaptionModel {
                    text: crate::edits::profanity_spec(m.captions[k].text, bleep),
                    ..m.captions[k]
                }) by {
                    if k < i {
                        assert(rebuilt@[k] == rebuilt@.drop_last()[k]);
                        assert(prev[k] == (CaptionModel {
                            text: crate::edits::profanity_spec(m.captions[k].text, bleep),
                            ..m.captions[k]
                        }));
                    }
                }
            }
            i += 1;
        }
        self.captions = rebuilt;
        let ghost mid = StoreModel {
            captions: m.captions.map_values(
                |c: CaptionModel| CaptionModel {
                    text: crate::edits::profanity_spec(c.text, bleep),
                    ..c
                },
            ),
            ..m
        };
        proof {
            assert(self@.captions =~~= mid.captions);
            assert(self@ == mid);
            lemma_record_inv(mid);
        }
        self.record_snapshot();
    }

    /// Reports every caption whose reading speed is out of range, per
    /// [`speed_kind`]: position and kind in position order. Read-only.
    pub fn analyze_reading_speed(&self) -> (r: Vec<(usize, SpeedKind)>)
        requires
            self@.inv(),
        ensures
            warn_ints(r@) == warnings_spec(self@.captions),
    {
        let mut out: Vec<(usize, SpeedKind)> = Vec::new();
        let mut i: usize = 0;
        while i < self.captions.len()
            invariant
                0 <= i <= self.captions.len(),
                warn_ints(out@) == warnings_spec(self.captions.deep_view().take(i as int)),
            decreases self.captions.len() - i,
        {
            let c = &self.captions[i];
            let dur: i64 = c.end_ms as i64 - c.start_ms as i64;
            let n = c.text.len();
            let kind: Option<SpeedKind> = if dur <= 0 {
                if n > 0 {
                    Option::Some(SpeedKind::TooFast)
                } else {
                    Option::None
                }
            } else if (n as i128) * 1000 > 20 * (dur as i128) {
                Option::Some(SpeedKind::TooFast)
            } else if (n as i128) * 1000 < 5 * (dur as i128) && n > 10 {
                Option::Some(SpeedKind::TooSlow)
            } else {
                Option::None
            };
            proof {
                let dv = self.captions.deep_view();
                assert(dv.take(i + 1 as int).drop_last() =~= dv.take(i as int));
                assert(dv.take(i + 1 as int).last() == dv[i as int]);
                assert(dv[i as int] == self.captions[i as int]@);
                match kind {
                    Option::Some(k) => {
                        assert(speed_kind(dv[i as int]) == Option::Some(k));
                    },
                    Option::None => {
                        assert(speed_kind(dv[i as int]) is None);
                    },
                }
            }
            match kind {
                Option::Some(k) => {
                    let ghost prev = out@;
                    out.push((i, k));
                    proof {
                        assert(warn_ints(out@) =~= warn_ints(prev).push((i as int, k)));
                    }
                },
                Option::None => {},
            }
            i += 1;
        }
        proof {
            let dv = self.captions.deep_view();
            assert(dv.take(dv.len() as int) =~= dv);
        }
        out
    }

    /// Reports every pair of positions whose captions' intervals overlap,
    /// by a pairwise scan: all pairs, not just adjacent ones, in strictly
    /// ascending lexicographic order. Read-only.
    pub fn detect_conflicts(&self) -> (r: Vec<(usize, usize)>)
        requires
            self@.inv(),
        ensures
            forall|p: int|
                0 <= p < r@.len() ==> (#[trigger] r@[p]).0 < r@[p].1 < self@.captions.len()
                    && overlap(self@.captions[r@[p].0 as int], self@.captions[r@[p].1 as int]),
            forall|i: int, j: int|
                0 <= i < j < self@.captions.len() && overlap(
                    self@.captions[i],
                    self@.captions[j],
                ) ==> r@.contains((i as usize, j as usize)),
            forall|p: int, q: int|
                0 <= p < q < r@.len() ==> (#[trigger] r@[p]).0 < (#[trigger] r@[q]).0 || (r@[p].0
                    == r@[q].0 && r@[p].1 < r@[q].1),
    {
        let ghost dv = self.captions.deep_view();
        let mut out: Vec<(usize, usize)> = Vec::new();
        let n = self.captions.len();
        let mut i: usize = 0;
        while i < n
            invariant
                0 <= i <= n,
                n == self.captions.len(),
                dv == self.captions.deep_view(),
                forall|p: int|
                    0 <= p < out@.len() ==> (#[trigger] out@[p]).0 < out@[p].1 < n && overlap(
                        dv[out@[p].0 as int],
                        dv[out@[p].1 as int],
                    ),
                forall|a: int, b: int|
                    0 <= a < b < n && a < i && overlap(dv[a], dv[b]) ==> out@.contains(
                        (a as usize, b as usize),
                    ),
                forall|p: int| 0 <= p < out@.len() ==> (#[trigger] out@[p]).0 < i,
                forall|p: int, q: int|
                    0 <= p < q < out@.len() ==> (#[trigger] out@[p]).0 < (#[trigger] out@[q]).0 || (
                    out@[p].0 == out@[q].0 && out@[p].1 < out@[q].1),
            decreases n - i,
        {
            let mut j: usize = i + 1;
            while j < n
                invariant
                    0 <= i < j <= n,
                    n == self.captions.len(),
                    dv == self.captions.deep_view(),
                    forall|p: int|
                        0 <= p < out@.len() ==> (#[trigger] out@[p]).0 < out@[p].1 < n && overlap(
                            dv[out@[p].0 as int],
                            dv[out@[p].1 as int],
                        ),
                    forall|a: int, b: int|
                        0 <= a < b < n && a < i && overlap(dv[a], dv[b]) ==> out@.contains(
                            (a as usize, b as usize),
                        ),
                    forall|b: int| i < b < j && overlap(dv[i as int], dv[b]) ==> out@.contains(
                        (i, b as usize),
                    ),
                    forall|p: int|
                        0 <= p < out@.len() ==> (#[trigger] out@[p]).0 < i || (out@[p].0 == i
                            && out@[p].1 < j),
                    forall|p: int, q: int|
                        0 <= p < q < out@.len() ==> (#[trigger] out@[p]).0 < (
                        #[trigger] out@[q]).0 || (out@[p].0 == out@[q].0 && out@[p].1 < out@[q].1),
                decreases n - j,
            {
                let a_end = self.captions[i].end_ms;
                let a_start = self.captions[i].start_ms;
                let b_start = self.captions[j].start_ms;
                let b_end = self.captions[j].end_ms;
                if a_end > b_start && a_start < b_end {
                    let ghost prev = out@;
                    out.push((i, j));
                    proof {
                        assert(out@[out@.len() - 1] == (i, j));
                        assert forall|a: int, b: int|
                            0 <= a < b < n && a < i && overlap(dv[a], dv[b]) implies out@.contains(
                            (a as usize, b as usize),
                        ) by {
                            assert(prev.contains((a as usize, b as usize)));
                            let w = choose|w: int|
                                0 <= w < prev.len() && prev[w] == (a as usize, b as usize);
                            assert(out@[w] == (a as usize, b as usize));
                        }
                        assert forall|b: int|
                            i < b < j + 1 && overlap(dv[i as int], dv[b]) implies out@.contains(
                            (i, b as usize),
                        ) by {
                            if b < j {
                                assert(prev.contains((i, b as usize)));
                                let w = choose|w: int|
                                    0 <= w < prev.len() && prev[w] == (i, b as usize);
                                assert(out@[w] == (i, b as usize));
                            } else {
                                assert(out@[out@.len() - 1] == (i, b as usize));
                            }
                        }
                    }
                } else {
                    proof {
                        assert(!overlap(dv[i as int], dv[j as int]));
                    }
                }
                j += 1;
            }
            i += 1;
        }
        out
    }
}


/// The captions built from parsed tuples: position-indexed fresh ids, full
/// confidence, no speaker, default style.
pub open spec fn captions_from_tuples(ts: Seq<(int, int, Seq<char>)>) -> Seq<CaptionModel> {
    ts.map(
        |i: int, t: (int, int, Seq<char>)| CaptionModel {
            id: caption_id_spec(i),
            start_ms: t.0,
            end_ms: t.1,
            text: t.2,
            speaker: Option::None,
            confidence_milli: 1000,
            style: crate::caption::default_style_spec(),
        },
    )
}

impl CaptionEditor {
    /// Imports a document, all or nothing: the fully supported format
    /// replaces the whole collection with freshly numbered captions (the id
    /// nonce restarts at zero), re-sorts by start time, clears the selection
    /// and records one snapshot; a parse failure leaves state and history
    /// unchanged. The stub import formats succeed without changing the
    /// collection and record one snapshot. The remaining identifiers are not
    /// importable here and fail as unsupported. Reading-speed and conflict
    /// analysis of the imported collection are available through the
    /// read-only analysis operations.
    pub fn import_captions(&mut self, format: crate::codec::FormatId, content: &Vec<char>) -> (r:
        Result<(), crate::codec::ParseError>)
        requires
            old(self)@.inv(),
        ensures
            final(self)@.inv(),
            match format {
                crate::codec::FormatId::Srt => match crate::codec::parse_srt_spec(content@) {
                    Result::Err(e) => r == Result::<(), crate::codec::ParseError>::Err(e)
                        && final(self)@ == old(self)@,
                    Result::Ok(ts) => if ts.len() <= 0xffffffff {
                        r is Ok && final(self)@ == record_model(
                            StoreModel {
                                captions: sort_by_start(captions_from_tuples(ts)),
                                selected: Seq::empty(),
                                nonce: ts.len() as int,
                                ..old(self)@
                            },
                        )
                    } else {
                        r == Result::<(), crate::codec::ParseError>::Err(
                            crate::codec::ParseError::Range,
                        ) && final(self)@ == old(self)@
                    },
                },
                crate::codec::FormatId::Vtt | crate::codec::FormatId::Ass
                    | crate::codec::FormatId::OpusExport => r is Ok && final(self)@ == record_model(
                    old(self)@,
                ),
                _ => r == Result::<(), crate::codec::ParseError>::Err(
                    crate::codec::ParseError::UnsupportedFormat,
                ) && final(self)@ == old(self)@,
            },
    {
        let ghost m = self@;
        match format {
            crate::codec::FormatId::Srt => {
                let tuples = match crate::codec::parse_srt_tuples(content) {
                    Result::Ok(ts) => ts,
                    Result::Err(e) => {
                        return Result::Err(e);
                    },
                };
                if tuples.len() > 0xffffffff {
                    return Result::Err(crate::codec::ParseError::Range);
                }
                let ghost ts = crate::codec::tuple_views(tuples@);
                let mut caps: Vec<Caption> = Vec::new();
                let mut i: usize = 0;
                while i < tuples.len()
                    invariant
                        0 <= i <= tuples.len(),
                        tuples.len() <= 0xffffffff,
                        ts == crate::codec::tuple_views(tuples@),
                        ts.len() == tuples.len(),
                        caps.len() == i,
                        forall|k: int|
                            0 <= k < i ==> caps.deep_view()[k] == captions_from_tuples(ts)[k],
                    decreases tuples.len() - i,
                {
                    proof {
                        assert(ts[i as int] == (
                            tuples@[i as int].0 as int,
                            tuples@[i as int].1 as int,
                            tuples@[i as int].2@,
                        ));
                    }
                    let t = &tuples[i];
                    let cap = Caption {
                        id: make_caption_id(i as u32),
                        start_ms: t.0,
                        end_ms: t.1,
                        text: copy_text(&t.2),
                        speaker: Option::None,
                        confidence_milli: 1000,
                        style: crate::caption::default_style(),
                    };
                    let ghost prev = caps.deep_view();
                    caps.push(cap);
                    proof {
                        assert forall|k: int|
                            0 <= k < i + 1 implies caps.deep_view()[k] == captions_from_tuples(
                            ts,
                        )[k] by {
                            if k < i {
                                assert(caps@[k] == caps@.drop_last()[k]);
                                assert(prev[k] == captions_from_tuples(ts)[k]);
                            }
                        }
                    }
                    i += 1;
                }
                proof {
                    assert(caps.deep_view() =~~= captions_from_tuples(ts));
                }
                let sorted = sort_captions(&caps);
                self.captions = sorted;
                self.caption_id_nonce = tuples.len() as u32;
                self.selected_indices = Vec::new();
                let ghost mid = StoreModel {
                    captions: sort_by_start(captions_from_tuples(ts)),
                    selected: Seq::empty(),
                    nonce: ts.len() as int,
                    ..m
                };
                proof {
                    assert(self@.selected =~= mid.selected);
                    assert(self@ == mid);
                    lemma_record_inv(mid);
                }
                self.record_snapshot();
                Result::Ok(())
            },
            crate::codec::FormatId::Vtt | crate::codec::FormatId::Ass
                | crate::codec::FormatId::OpusExport => {
                proof {
                    lemma_record_inv(m);
                }
                self.record_snapshot();
                Result::Ok(())
            },
            _ => Result::Err(crate::codec::ParseError::UnsupportedFormat),
        }
    }

    /// Exports the collection in the named format: the two timestamp-block
    /// formats render every caption; three formats render constant stub
    /// headers; the rest are not exportable here and fail as unsupported.
    /// Read-only.
    pub fn export_captions(&self, format: crate::codec::FormatId) -> (r: Result<
        Vec<char>,
        crate::codec::ParseError,
    >)
        requires
            self@.inv(),
            self@.captions.len() < 0xffffffff,
        ensures
            match format {
                crate::codec::FormatId::Srt => r is Ok && r->Ok_0@ == crate::codec::srt_format_spec(
                    self@.captions,
                ),
                crate::codec::FormatId::Vtt => r is Ok && r->Ok_0@ == crate::codec::vtt_format_spec(
                    self@.captions,
                ),
                crate::codec::FormatId::Ass => r is Ok && r->Ok_0@ == crate::codec::ass_stub_spec(),
                crate::codec::FormatId::FcpXml => r is Ok && r->Ok_0@
                    == crate::codec::fcpxml_stub_spec(),
                crate::codec::FormatId::Edl => r is Ok && r->Ok_0@ == crate::codec::edl_stub_spec(),
                _ => r == Result::<Vec<char>, crate::codec::ParseError>::Err(
                    crate::codec::ParseError::UnsupportedFormat,
                ),
            },
    {
        match format {
            crate::codec::FormatId::Srt => Result::Ok(crate::codec::format_srt(&self.captions)),
            crate::codec::FormatId::Vtt => Result::Ok(crate::codec::format_vtt(&self.captions)),
            crate::codec::FormatId::Ass => Result::Ok(crate::codec::ass_stub()),
            crate::codec::FormatId::FcpXml => Result::Ok(crate::codec::fcpxml_stub()),
            crate::codec::FormatId::Edl => Result::Ok(crate::codec::edl_stub()),
            _ => Result::Err(crate::codec::ParseError::UnsupportedFormat),
        }
    }
}


impl CaptionEditor {
    /// Replaces the whole collection with externally prepared captions,
    /// clears the selection and records one snapshot. Identifiers and order
    /// are taken as given.
    pub fn replace_collection(&mut self, caps: Vec<Caption>)
        requires
            old(self)@.inv(),
        ensures
            final(self)@.inv(),
            final(self)@ == record_model(
                StoreModel {
                    captions: caps.deep_view(),
                    selected: Seq::empty(),
                    ..old(self)@
                },
            ),
    {
        let ghost m = self@;
        let ghost cv = caps.deep_view();
        self.captions = caps;
        self.selected_indices = Vec::new();
        let ghost mid = StoreModel { captions: cv, selected: Seq::empty(), ..m };
        proof {
            assert(self@.selected =~= mid.selected);
            assert(self@ == mid);
            lemma_record_inv(mid);
        }
        self.record_snapshot();
    }
}

} // verus!

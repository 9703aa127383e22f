//! State of an editable single-line text field: text buffer, cursor,
//! selection, IME preedit, password masking and undo/redo history.
//!
//! Offsets are byte offsets into the UTF-8 encoding of the text.
use crate::platform::PlatformKey;
use crate::textbuf::{
    at_most, boundary, byte_len, char_len_utf8, grapheme_indices, grapheme_starts, is_next_start, is_prev_start,
    lemma_boundary_ends, lemma_splice, lemma_utf8_empty, next_grapheme_boundary,
    next_word_boundary, prev_grapheme_boundary, prev_word_boundary, segmentation, splice,
    split_word_bound_indices, string_drain, substring, string_insert, string_insert_str, string_push, utf8, word_starts,
};
use vstd::prelude::*;

verus! {

broadcast use vstd::utf8::group_utf8_lib;

/// The editable part of a text field at one moment: text, cursor and
/// selection.
pub struct Snapshot {
    pub text: Seq<char>,
    pub cursor: usize,
    pub selection: Option<(usize, usize)>,
}

/// The selection, when it spans a non-empty range that lies inside a text
/// of `len` bytes; such a selection is the one edits act on.
pub open spec fn live_range(sel: Option<(usize, usize)>, len: int) -> Option<(usize, usize)> {
    match sel {
        Some((a, b)) => if a < b && b <= len {
            Some((a, b))
        } else {
            None
        },
        None => None,
    }
}

/// Both ends of a live selection sit on character boundaries.
pub open spec fn sel_placed(s: Snapshot) -> bool {
    match live_range(s.selection, utf8(s.text).len() as int) {
        Some((a, b)) => boundary(s.text, a as int) && boundary(s.text, b as int),
        None => true,
    }
}

/// The cursor sits on a character boundary, and so do both ends of a live
/// selection.
pub open spec fn placed(s: Snapshot) -> bool {
    &&& boundary(s.text, s.cursor as int)
    &&& sel_placed(s)
}

/// The undo log after recording the edit `before -> after`: the oldest
/// entry is dropped once the log would exceed `limit` entries.
pub open spec fn recorded(log: Seq<(Snapshot, Snapshot)>, limit: nat, before: Snapshot, after: Snapshot) -> Seq<(Snapshot, Snapshot)> {
    let pushed = log.push((before, after));
    if pushed.len() > limit {
        pushed.drop_first()
    } else {
        pushed
    }
}

/// The last start before `at` among `starts`, or 0.
pub open spec fn prev_start(starts: Seq<usize>, at: int) -> int {
    choose|r: int| is_prev_start(starts, at, r)
}

/// The first start after `at` among `starts`, or `end`.
pub open spec fn next_start(starts: Seq<usize>, at: int, end: int) -> int {
    choose|r: int| is_next_start(starts, at, end, r)
}

/// Where the piece of a segmentation that begins at `starts[i]` ends.
pub open spec fn piece_end(starts: Seq<usize>, len: int, i: int) -> int {
    if i + 1 < starts.len() {
        starts[i + 1] as int
    } else {
        len
    }
}

/// Offset `c` lies within piece `i`, both ends included.
pub open spec fn covers(starts: Seq<usize>, len: int, i: int, c: int) -> bool {
    starts[i] <= c <= piece_end(starts, len, i)
}

/// The end of the selection that stays put when the cursor at `cursor`
/// extends the selection `sel`.
pub open spec fn anchor_of(sel: Option<(usize, usize)>, cursor: usize) -> usize {
    match sel {
        None => cursor,
        Some((s, e)) => if cursor == s {
            e
        } else {
            s
        },
    }
}

/// The selection between `c` and `a`, smaller end first.
pub open spec fn ordered(c: usize, a: usize) -> (usize, usize) {
    if c < a {
        (c, a)
    } else {
        (a, c)
    }
}

proof fn lemma_prev_unique(starts: Seq<usize>, at: int, r: int)
    requires
        is_prev_start(starts, at, r),
    ensures
        prev_start(starts, at) == r,
{
    let q = prev_start(starts, at);
    assert(is_prev_start(starts, at, q));
    if r != 0 {
        let i = choose|i: int| 0 <= i < starts.len() && starts[i] == r;
        assert(starts[i] <= q);
    }
    if q != 0 {
        let i = choose|i: int| 0 <= i < starts.len() && starts[i] == q;
        assert(starts[i] <= r);
    }
}

proof fn lemma_next_unique(text: Seq<char>, starts: Seq<usize>, at: int, r: int)
    requires
        segmentation(text, starts),
        is_next_start(starts, at, utf8(text).len() as int, r),
    ensures
        next_start(starts, at, utf8(text).len() as int) == r,
{
    let end = utf8(text).len() as int;
    let q = next_start(starts, at, end);
    assert(is_next_start(starts, at, end, q));
    if r != end {
        let i = choose|i: int| 0 <= i < starts.len() && starts[i] == r;
        assert(q <= starts[i]);
    }
    if q != end {
        let i = choose|i: int| 0 <= i < starts.len() && starts[i] == q;
        assert(r <= starts[i]);
    }
}

/// A recorded edit: the editable state before and after it.
#[derive(Debug)]
struct EditTransaction {
    old_text: String,
    new_text: String,
    old_cursor: usize,
    new_cursor: usize,
    old_selection: Option<(usize, usize)>,
    new_selection: Option<(usize, usize)>,
}

impl EditTransaction {
    spec fn entry(self) -> (Snapshot, Snapshot) {
        (
            Snapshot { text: self.old_text@, cursor: self.old_cursor, selection: self.old_selection },
            Snapshot { text: self.new_text@, cursor: self.new_cursor, selection: self.new_selection },
        )
    }
}

impl Clone for EditTransaction {
    fn clone(&self) -> (r: Self)
        ensures
            r == *self,
    {
        EditTransaction {
            old_text: self.old_text.clone(),
            new_text: self.new_text.clone(),
            old_cursor: self.old_cursor,
            new_cursor: self.new_cursor,
            old_selection: self.old_selection,
            new_selection: self.new_selection,
        }
    }
}

/// A copy of a list of transactions.
fn clone_transactions(txs: &Vec<EditTransaction>) -> (r: Vec<EditTransaction>)
    ensures
        r@ == txs@,
{
    let mut r: Vec<EditTransaction> = Vec::new();
    let mut i: usize = 0;
    while i < txs.len()
        invariant
            0 <= i <= txs@.len(),
            r@ == txs@.take(i as int),
        decreases txs@.len() - i,
    {
        r.push(txs[i].clone());
        i += 1;
        proof {
            assert(r@ =~= txs@.take(i as int));
        }
    }
    proof {
        assert(txs@.take(i as int) =~= txs@);
    }
    r
}

spec fn log_of(txs: Seq<EditTransaction>) -> Seq<(Snapshot, Snapshot)> {
    txs.map_values(|t: EditTransaction| t.entry())
}

spec fn log_placed(log: Seq<(Snapshot, Snapshot)>) -> bool {
    forall|i: int| 0 <= i < log.len() ==> sel_placed(#[trigger] log[i].0) && placed(log[i].1)
}

/// The undo and redo history of a text field.
#[derive(Debug)]
pub struct EditHistory {
    max_undo: usize,
    undo_stack: Vec<EditTransaction>,
    redo_stack: Vec<EditTransaction>,
}

impl Clone for EditHistory {
    fn clone(&self) -> (r: Self)
        ensures
            r.undo_log() == self.undo_log(),
            r.redo_log() == self.redo_log(),
            r.limit() == self.limit(),
    {
        proof {
            use_type_invariant(self);
        }
        EditHistory {
            max_undo: self.max_undo,
            undo_stack: clone_transactions(&self.undo_stack),
            redo_stack: clone_transactions(&self.redo_stack),
        }
    }
}

impl EditHistory {
    #[verifier::type_invariant]
    spec fn inv(self) -> bool {
        &&& self.max_undo > 0
        &&& log_placed(log_of(self.undo_stack@))
        &&& log_placed(log_of(self.redo_stack@))
    }

    /// The recorded edits that undo reverts, oldest first.
    pub closed spec fn undo_log(&self) -> Seq<(Snapshot, Snapshot)> {
        log_of(self.undo_stack@)
    }

    /// The reverted edits that redo re-applies, oldest first.
    pub closed spec fn redo_log(&self) -> Seq<(Snapshot, Snapshot)> {
        log_of(self.redo_stack@)
    }

    /// The most edits the undo log keeps.
    pub closed spec fn limit(&self) -> nat {
        self.max_undo as nat
    }
}

/// State for a text input field.
#[derive(Clone, Debug)]
pub struct TextInputState {
    /// The underlying text buffer.
    pub text: String,
    /// Byte offset of the cursor into `text`.
    pub cursor: usize,
    /// Optional byte-range selection `(start, end)`.
    pub selection: Option<(usize, usize)>,
    /// IME preedit text (displayed inline but not yet committed).
    pub preedit: String,
    /// Optional cursor position within the preedit text as byte offsets.
    pub preedit_cursor: Option<(usize, usize)>,
    /// Whether this input currently has keyboard focus.
    pub focused: bool,
    /// If `true`, the display text is masked with `password_char`.
    pub password: bool,
    /// The character used for password masking.
    pub password_char: char,
    /// Placeholder text shown when the text buffer is empty.
    pub placeholder: String,
    /// If `true`, every editing operation is refused.
    pub readonly: bool,
    /// Visual flag: the field is drawn as holding an invalid value.
    pub invalid: bool,
    /// Undo and redo history.
    pub history: EditHistory,
}

impl TextInputState {
    /// The editable part of the state.
    pub open spec fn snapshot(&self) -> Snapshot {
        Snapshot { text: self.text@, cursor: self.cursor, selection: self.selection }
    }

    /// The UTF-8 bytes of the text.
    pub open spec fn bytes(&self) -> Seq<u8> {
        utf8(self.text@)
    }

    /// The length of the text in bytes.
    pub open spec fn len_bytes(&self) -> int {
        utf8(self.text@).len() as int
    }

    /// The starts of the extended grapheme clusters of the text.
    pub open spec fn graphemes(&self) -> Seq<usize> {
        grapheme_starts(self.text@, true)
    }

    /// The starts of the pieces of the text between word boundaries.
    pub open spec fn words(&self) -> Seq<usize> {
        word_starts(self.text@)
    }

    /// Cursor and live selection sit on character boundaries.
    pub open spec fn well_placed(&self) -> bool {
        placed(self.snapshot())
    }

    /// Both ends of a live selection sit on character boundaries.
    pub open spec fn selection_placed(&self) -> bool {
        sel_placed(self.snapshot())
    }

    /// The recorded edits that `undo` reverts, oldest first.
    pub open spec fn undo_log(&self) -> Seq<(Snapshot, Snapshot)> {
        self.history.undo_log()
    }

    /// The reverted edits that `redo` re-applies, oldest first.
    pub open spec fn redo_log(&self) -> Seq<(Snapshot, Snapshot)> {
        self.history.redo_log()
    }

    /// The most edits the undo log keeps.
    pub open spec fn history_limit(&self) -> nat {
        self.history.limit()
    }

    /// The settings of the field are those of `old`.
    pub open spec fn same_settings(&self, old: Self) -> bool {
        &&& self.focused == old.focused
        &&& self.password == old.password
        &&& self.password_char == old.password_char
        &&& self.placeholder == old.placeholder
        &&& self.readonly == old.readonly
        &&& self.invalid == old.invalid
        &&& self.history_limit() == old.history_limit()
    }

    /// The history is that of `old`.
    pub open spec fn same_logs(&self, old: Self) -> bool {
        &&& self.undo_log() == old.undo_log()
        &&& self.redo_log() == old.redo_log()
    }

    /// The preedit is that of `old`.
    pub open spec fn same_preedit(&self, old: Self) -> bool {
        &&& self.preedit == old.preedit
        &&& self.preedit_cursor == old.preedit_cursor
    }

    /// Only cursor and selection may differ from `old`.
    pub open spec fn caret(&self, old: Self) -> bool {
        &&& self.text == old.text
        &&& self.same_preedit(old)
        &&& self.same_logs(old)
        &&& self.same_settings(old)
    }

    /// Nothing visible differs from `old`.
    pub open spec fn unchanged(&self, old: Self) -> bool {
        &&& self.caret(old)
        &&& self.cursor == old.cursor
        &&& self.selection == old.selection
    }

    /// The edit from `old` was recorded for undo, and nothing is left to
    /// redo.
    pub open spec fn edited(&self, old: Self) -> bool {
        &&& self.undo_log() == recorded(old.undo_log(), old.history_limit(), old.snapshot(), self.snapshot())
        &&& self.redo_log() == Seq::<(Snapshot, Snapshot)>::empty()
        &&& self.history_limit() == old.history_limit()
    }

    /// The bytes `a..b` of `old` were removed and the cursor put at `a`,
    /// with no selection left.
    pub open spec fn cut(&self, old: Self, a: int, b: int) -> bool {
        &&& self.bytes() == splice(old.bytes(), a, b, Seq::empty())
        &&& self.cursor == a
        &&& self.selection is None
        &&& self.same_preedit(old)
        &&& self.same_settings(old)
    }

    /// The text of `old` once its live selection is removed.
    pub open spec fn cleared_bytes(&self) -> Seq<u8> {
        match live_range(self.selection, self.len_bytes()) {
            Some((a, b)) => splice(self.bytes(), a as int, b as int, Seq::empty()),
            None => self.bytes(),
        }
    }

    /// The cursor of `old` once its live selection is removed.
    pub open spec fn cleared_cursor(&self) -> int {
        match live_range(self.selection, self.len_bytes()) {
            Some((a, _)) => a as int,
            None => self.cursor as int,
        }
    }

    /// `ins` replaced the live selection of `old` (or was put at its
    /// cursor), the cursor follows the inserted bytes, and the edit was
    /// recorded.
    pub open spec fn inserted(&self, old: Self, ins: Seq<u8>) -> bool {
        let k = old.cleared_cursor();
        &&& self.bytes() == splice(old.cleared_bytes(), k, k, ins)
        &&& self.cursor == k + ins.len()
        &&& self.selection is None
        &&& self.same_settings(old)
        &&& self.edited(old)
    }
}

} // verus!

verus! {

proof fn lemma_log_push(txs: Seq<EditTransaction>, tx: EditTransaction)
    ensures
        log_of(txs.push(tx)) == log_of(txs).push(tx.entry()),
{
    assert(log_of(txs.push(tx)) =~= log_of(txs).push(tx.entry()));
}

proof fn lemma_log_drop_first(txs: Seq<EditTransaction>)
    requires
        txs.len() > 0,
    ensures
        log_of(txs.drop_first()) == log_of(txs).drop_first(),
{
    assert(log_of(txs.drop_first()) =~= log_of(txs).drop_first());
}

proof fn lemma_log_drop_last(txs: Seq<EditTransaction>)
    requires
        txs.len() > 0,
    ensures
        log_of(txs.drop_last()) == log_of(txs).drop_last(),
        log_of(txs).last() == txs.last().entry(),
{
    assert(log_of(txs.drop_last()) =~= log_of(txs).drop_last());
}

impl EditHistory {
    /// An empty history that keeps at most 50 edits.
    pub fn new() -> (r: Self)
        ensures
            r.undo_log() == Seq::<(Snapshot, Snapshot)>::empty(),
            r.redo_log() == Seq::<(Snapshot, Snapshot)>::empty(),
            r.limit() == 50,
    {
        let r = EditHistory { max_undo: 50, undo_stack: Vec::new(), redo_stack: Vec::new() };
        proof {
            assert(log_of(r.undo_stack@) =~= Seq::<(Snapshot, Snapshot)>::empty());
            assert(log_of(r.redo_stack@) =~= Seq::<(Snapshot, Snapshot)>::empty());
        }
        r
    }

    /// Records the edit from the old state to the new one and forgets what
    /// was left to redo.
    fn record(
        &mut self,
        old_text: String,
        old_cursor: usize,
        old_selection: Option<(usize, usize)>,
        new_text: &String,
        new_cursor: usize,
        new_selection: Option<(usize, usize)>,
    )
        requires
            sel_placed(Snapshot { text: old_text@, cursor: old_cursor, selection: old_selection }),
            placed(Snapshot { text: new_text@, cursor: new_cursor, selection: new_selection }),
        ensures
            final(self).undo_log() == recorded(
                old(self).undo_log(),
                old(self).limit(),
                Snapshot { text: old_text@, cursor: old_cursor, selection: old_selection },
                Snapshot { text: new_text@, cursor: new_cursor, selection: new_selection },
            ),
            final(self).redo_log() == Seq::<(Snapshot, Snapshot)>::empty(),
            final(self).limit() == old(self).limit(),
    {
        proof {
            use_type_invariant(&*self);
        }
        let ghost u0 = self.undo_stack@;
        let tx = EditTransaction {
            old_text,
            new_text: new_text.clone(),
            old_cursor,
            new_cursor,
            old_selection,
            new_selection,
        };
        proof {
            lemma_log_push(u0, tx);
        }
        let mut undo: Vec<EditTransaction> = Vec::new();
        std::mem::swap(&mut undo, &mut self.undo_stack);
        undo.push(tx);
        if undo.len() > self.max_undo {
            proof {
                lemma_log_drop_first(undo@);
                assert(undo@.remove(0) == undo@.drop_first());
            }
            undo.remove(0);
        }
        proof {
            let l0 = log_of(u0);
            let ln = log_of(undo@);
            assert(log_placed(l0));
            assert(sel_placed(tx.entry().0) && placed(tx.entry().1));
            assert forall|i: int| 0 <= i < ln.len() implies sel_placed(#[trigger] ln[i].0) && placed(ln[i].1) by {
                let lp = l0.push(tx.entry());
                if ln.len() == lp.len() {
                    assert(ln[i] == lp[i]);
                } else {
                    assert(ln[i] == lp[i + 1]);
                }
                if i < l0.len() && ln.len() == lp.len() {
                    assert(sel_placed(l0[i].0));
                }
                if i + 1 < l0.len() && ln.len() != lp.len() {
                    assert(sel_placed(l0[i + 1].0));
                }
            }
        }
        self.undo_stack = undo;
        self.redo_stack = Vec::new();
        proof {
            assert(log_of(self.redo_stack@) =~= Seq::<(Snapshot, Snapshot)>::empty());
        }
    }

    /// Takes the latest recorded edit off the undo log and moves it to the
    /// redo log.
    fn undo_step(&mut self) -> (r: Option<EditTransaction>)
        ensures
            old(self).undo_log().len() == 0 ==> r is None && final(self).undo_log() == old(self).undo_log()
                && final(self).redo_log() == old(self).redo_log(),
            old(self).undo_log().len() > 0 ==> (r matches Some(tx) && {
                &&& tx.entry() == old(self).undo_log().last()
                &&& sel_placed(tx.entry().0)
                &&& placed(tx.entry().1)
                &&& final(self).undo_log() == old(self).undo_log().drop_last()
                &&& final(self).redo_log() == old(self).redo_log().push(old(self).undo_log().last())
            }),
            final(self).limit() == old(self).limit(),
    {
        proof {
            use_type_invariant(&*self);
        }
        let ghost u0 = self.undo_stack@;
        let ghost r0 = self.redo_stack@;
        let mut src: Vec<EditTransaction> = Vec::new();
        std::mem::swap(&mut src, &mut self.undo_stack);
        let popped = src.pop();
        proof {
            if u0.len() > 0 {
                lemma_log_drop_last(u0);
                assert(src@ == u0.drop_last());
                assert forall|i: int| 0 <= i < log_of(src@).len() implies sel_placed(#[trigger] log_of(src@)[i].0) && placed(log_of(src@)[i].1) by {
                    assert(log_of(src@)[i] == log_of(u0)[i]);
                }
            }
        }
        self.undo_stack = src;
        match popped {
            None => None,
            Some(tx) => {
                proof {
                    lemma_log_drop_last(u0);
                    lemma_log_push(r0, tx);
                    assert(log_of(u0)[u0.len() - 1] == tx.entry());
                    assert(sel_placed(log_of(u0)[u0.len() - 1].0) && placed(log_of(u0)[u0.len() - 1].1));
                }
                let mut dst: Vec<EditTransaction> = Vec::new();
                std::mem::swap(&mut dst, &mut self.redo_stack);
                dst.push(tx.clone());
                self.redo_stack = dst;
                Some(tx)
            },
        }
    }

    /// Takes the latest reverted edit off the redo log and moves it back to
    /// the undo log.
    fn redo_step(&mut self) -> (r: Option<EditTransaction>)
        ensures
            old(self).redo_log().len() == 0 ==> r is None && final(self).undo_log() == old(self).undo_log()
                && final(self).redo_log() == old(self).redo_log(),
            old(self).redo_log().len() > 0 ==> (r matches Some(tx) && {
                &&& tx.entry() == old(self).redo_log().last()
                &&& sel_placed(tx.entry().0)
                &&& placed(tx.entry().1)
                &&& final(self).redo_log() == old(self).redo_log().drop_last()
                &&& final(self).undo_log() == old(self).undo_log().push(old(self).redo_log().last())
            }),
            final(self).limit() == old(self).limit(),
    {
        proof {
            use_type_invariant(&*self);
        }
        let ghost u0 = self.undo_stack@;
        let ghost r0 = self.redo_stack@;
        let mut src: Vec<EditTransaction> = Vec::new();
        std::mem::swap(&mut src, &mut self.redo_stack);
        let popped = src.pop();
        proof {
            if r0.len() > 0 {
                lemma_log_drop_last(r0);
                assert(src@ == r0.drop_last());
                assert forall|i: int| 0 <= i < log_of(src@).len() implies sel_placed(#[trigger] log_of(src@)[i].0) && placed(log_of(src@)[i].1) by {
                    assert(log_of(src@)[i] == log_of(r0)[i]);
                }
            }
        }
        self.redo_stack = src;
        match popped {
            None => None,
            Some(tx) => {
                proof {
                    lemma_log_drop_last(r0);
                    lemma_log_push(u0, tx);
                    assert(log_of(r0)[r0.len() - 1] == tx.entry());
                    assert(sel_placed(log_of(r0)[r0.len() - 1].0) && placed(log_of(r0)[r0.len() - 1].1));
                }
                let mut dst: Vec<EditTransaction> = Vec::new();
                std::mem::swap(&mut dst, &mut self.undo_stack);
                dst.push(tx.clone());
                self.undo_stack = dst;
                Some(tx)
            },
        }
    }

    /// Forgets every recorded edit.
    pub fn clear(&mut self)
        ensures
            final(self).undo_log() == Seq::<(Snapshot, Snapshot)>::empty(),
            final(self).redo_log() == Seq::<(Snapshot, Snapshot)>::empty(),
            final(self).limit() == old(self).limit(),
    {
        proof {
            use_type_invariant(&*self);
        }
        self.undo_stack = Vec::new();
        self.redo_stack = Vec::new();
        proof {
            assert(log_of(self.undo_stack@) =~= Seq::<(Snapshot, Snapshot)>::empty());
            assert(log_of(self.redo_stack@) =~= Seq::<(Snapshot, Snapshot)>::empty());
        }
    }
}

} // verus!

verus! {

impl TextInputState {
    /// What `delete_selection` does: a live selection is removed from the
    /// text and the cursor put at its start; a selection that is not live
    /// is dropped; with no selection nothing changes. The result says
    /// whether text was removed. Nothing is recorded for undo.
    pub open spec fn post_delete_selection(&self, old: Self, r: bool) -> bool {
        match old.selection {
            None => !r && self.unchanged(old),
            Some(_) => match live_range(old.selection, old.len_bytes()) {
                Some((a, b)) => r && self.cut(old, a as int, b as int) && self.same_logs(old),
                None => !r && self.caret(old) && self.cursor == old.cursor && self.selection is None,
            },
        }
    }

    /// What `undo` does: the latest recorded edit, if any, is reverted: the
    /// state before it comes back, the preedit is dropped and the edit moves
    /// to the redo log. The result says whether there was an edit to revert.
    pub open spec fn post_undo(&self, old: Self, r: bool) -> bool {
        if old.undo_log().len() == 0 {
            !r && self.unchanged(old)
        } else {
            let e = old.undo_log().last();
            &&& r
            &&& self.snapshot() == e.0
            &&& self.undo_log() == old.undo_log().drop_last()
            &&& self.redo_log() == old.redo_log().push(e)
            &&& self.preedit@ == Seq::<char>::empty()
            &&& self.preedit_cursor is None
            &&& self.same_settings(old)
        }
    }

    /// What `redo` does: the latest reverted edit, if any, is applied again:
    /// the state after it comes back, the preedit is dropped and the edit
    /// moves back to the undo log. The result says whether there was an edit
    /// to re-apply.
    pub open spec fn post_redo(&self, old: Self, r: bool) -> bool {
        if old.redo_log().len() == 0 {
            !r && self.unchanged(old)
        } else {
            let e = old.redo_log().last();
            &&& r
            &&& self.snapshot() == e.1
            &&& self.redo_log() == old.redo_log().drop_last()
            &&& self.undo_log() == old.undo_log().push(e)
            &&& self.preedit@ == Seq::<char>::empty()
            &&& self.preedit_cursor is None
            &&& self.same_settings(old)
        }
    }

    /// What `insert_char` does: refused when read-only; otherwise the
    /// character replaces the live selection or goes in at the cursor.
    pub open spec fn post_insert_char(&self, old: Self, c: char, r: bool) -> bool {
        if old.readonly {
            !r && self.unchanged(old)
        } else {
            r && self.inserted(old, utf8(seq![c])) && self.same_preedit(old)
        }
    }

    /// An empty, editable field whose history keeps 50 edits.
    pub fn new() -> (r: Self)
        ensures
            r.text@ == Seq::<char>::empty(),
            r.cursor == 0,
            r.selection is None,
            r.preedit@ == Seq::<char>::empty(),
            r.preedit_cursor is None,
            !r.focused,
            !r.password,
            r.password_char == '\u{2022}',
            r.placeholder@ == Seq::<char>::empty(),
            !r.readonly,
            !r.invalid,
            r.undo_log() == Seq::<(Snapshot, Snapshot)>::empty(),
            r.redo_log() == Seq::<(Snapshot, Snapshot)>::empty(),
            r.history_limit() == 50,
            r.well_placed(),
    {
        let r = TextInputState {
            text: String::new(),
            cursor: 0,
            selection: None,
            preedit: String::new(),
            preedit_cursor: None,
            focused: false,
            password: false,
            password_char: '\u{2022}',
            placeholder: String::new(),
            readonly: false,
            invalid: false,
            history: EditHistory::new(),
        };
        proof {
            lemma_boundary_ends(r.text@);
        }
        r
    }

    /// The cursor's byte offset.
    pub fn cursor(&self) -> (r: usize)
        ensures
            r == self.cursor,
    {
        self.cursor
    }

    /// The selection, if any.
    pub fn selection(&self) -> (r: Option<(usize, usize)>)
        ensures
            r == self.selection,
    {
        self.selection
    }

    /// Whether a selection is set.
    pub fn has_selection(&self) -> (r: bool)
        ensures
            r == self.selection is Some,
    {
        self.selection.is_some()
    }

    /// The length of the text in bytes.
    fn text_len(&self) -> (r: usize)
        ensures
            r == self.len_bytes(),
    {
        byte_len(self.text.as_str())
    }

    /// Reverts the latest recorded edit. Returns whether there was one.
    pub fn undo(&mut self) -> (r: bool)
        ensures
            final(self).post_undo(*old(self), r),
            old(self).undo_log().len() > 0 ==> final(self).selection_placed(),
            old(self).undo_log().len() > 0 && placed(old(self).undo_log().last().0) ==> final(self).well_placed(),
    {
        match self.history.undo_step() {
            None => false,
            Some(tx) => {
                self.text = tx.old_text;
                self.cursor = tx.old_cursor;
                self.selection = tx.old_selection;
                self.preedit = String::new();
                self.preedit_cursor = None;
                true
            },
        }
    }

    /// Re-applies the latest reverted edit. Returns whether there was one.
    pub fn redo(&mut self) -> (r: bool)
        ensures
            final(self).post_redo(*old(self), r),
            old(self).redo_log().len() > 0 ==> final(self).well_placed(),
    {
        match self.history.redo_step() {
            None => false,
            Some(tx) => {
                self.text = tx.new_text;
                self.cursor = tx.new_cursor;
                self.selection = tx.new_selection;
                self.preedit = String::new();
                self.preedit_cursor = None;
                true
            },
        }
    }

    /// Forgets the whole undo and redo history.
    pub fn clear_history(&mut self)
        ensures
            final(self).text == old(self).text,
            final(self).cursor == old(self).cursor,
            final(self).selection == old(self).selection,
            final(self).same_preedit(*old(self)),
            final(self).same_settings(*old(self)),
            final(self).undo_log() == Seq::<(Snapshot, Snapshot)>::empty(),
            final(self).redo_log() == Seq::<(Snapshot, Snapshot)>::empty(),
    {
        self.history.clear();
    }

    /// Records the edit from the given old state to the current one.
    fn push_undo_with_state(&mut self, old_text: String, old_cursor: usize, old_selection: Option<(usize, usize)>)
        requires
            sel_placed(Snapshot { text: old_text@, cursor: old_cursor, selection: old_selection }),
            old(self).well_placed(),
        ensures
            final(self).undo_log() == recorded(
                old(self).undo_log(),
                old(self).history_limit(),
                Snapshot { text: old_text@, cursor: old_cursor, selection: old_selection },
                old(self).snapshot(),
            ),
            final(self).redo_log() == Seq::<(Snapshot, Snapshot)>::empty(),
            final(self).history_limit() == old(self).history_limit(),
            final(self).text == old(self).text,
            final(self).cursor == old(self).cursor,
            final(self).selection == old(self).selection,
            final(self).same_preedit(*old(self)),
            final(self).focused == old(self).focused,
            final(self).password == old(self).password,
            final(self).password_char == old(self).password_char,
            final(self).placeholder == old(self).placeholder,
            final(self).readonly == old(self).readonly,
            final(self).invalid == old(self).invalid,
    {
        self.history.record(old_text, old_cursor, old_selection, &self.text, self.cursor, self.selection);
    }

    /// Removes a live selection from the text, putting the cursor at its
    /// start; drops any selection. Returns whether text was removed.
    fn delete_selection(&mut self) -> (r: bool)
        requires
            old(self).well_placed(),
        ensures
            final(self).post_delete_selection(*old(self), r),
            final(self).well_placed(),
    {
        let (start, end) = match self.selection {
            Some(s) => s,
            None => {
                return false;
            },
        };
        let len = self.text_len();
        if start >= len || end > len || start >= end {
            self.selection = None;
            proof {
                lemma_boundary_ends(self.text@);
            }
            return false;
        }
        let ghost b0 = self.bytes();
        string_drain(&mut self.text, start, end);
        self.cursor = start;
        self.selection = None;
        proof {
            lemma_splice(b0, start as int, end as int, Seq::empty());
        }
        true
    }

    /// Removes the live selection, if any, before an insertion.
    fn replace_selection(&mut self)
        requires
            old(self).well_placed(),
        ensures
            final(self).bytes() == old(self).cleared_bytes(),
            final(self).cursor == old(self).cleared_cursor(),
            final(self).selection is None,
            final(self).same_preedit(*old(self)),
            final(self).same_settings(*old(self)),
            final(self).same_logs(*old(self)),
            final(self).well_placed(),
    {
        if self.selection.is_some() {
            self.delete_selection();
        }
    }
}

} // verus!

verus! {

impl TextInputState {
    /// What `commit_preedit` does: refused when read-only or when there is
    /// no preedit; otherwise the preedit text replaces the live selection or
    /// goes in at the cursor, and the preedit is emptied.
    pub open spec fn post_commit_preedit(&self, old: Self) -> bool {
        if old.readonly || old.preedit@.len() == 0 {
            self.unchanged(old)
        } else {
            &&& self.inserted(old, utf8(old.preedit@))
            &&& self.preedit@ == Seq::<char>::empty()
            &&& self.preedit_cursor is None
        }
    }

    /// What `set_preedit` does: the preedit text and its cursor are replaced.
    pub open spec fn post_set_preedit(&self, old: Self, text: Seq<char>, cursor: Option<(usize, usize)>) -> bool {
        &&& self.text == old.text
        &&& self.cursor == old.cursor
        &&& self.selection == old.selection
        &&& self.same_logs(old)
        &&& self.same_settings(old)
        &&& self.preedit@ == text
        &&& self.preedit_cursor == cursor
    }

    /// Inserts a character at the cursor, replacing any live selection.
    /// Returns whether the state was modified.
    pub fn insert_char(&mut self, c: char) -> (r: bool)
        requires
            old(self).well_placed(),
        ensures
            final(self).post_insert_char(*old(self), c, r),
            final(self).well_placed(),
    {
        if self.readonly {
            return false;
        }
        let old_text = self.text.clone();
        let old_cursor = self.cursor;
        let old_selection = self.selection;
        self.replace_selection();
        let len = self.text_len();
        if self.cursor > len {
            self.cursor = len;
        }
        let ghost b1 = self.bytes();
        let ghost k = self.cursor as int;
        proof {
            lemma_boundary_ends(self.text@);
        }
        string_insert(&mut self.text, self.cursor, c);
        proof {
            lemma_splice(b1, k, k, utf8(seq![c]));
        }
        let new_len = self.text_len();
        self.cursor = self.cursor + char_len_utf8(c);
        self.selection = None;
        self.push_undo_with_state(old_text, old_cursor, old_selection);
        true
    }

    /// Sets the IME preedit text and the cursor within it.
    pub fn set_preedit(&mut self, text: &str, cursor: Option<(usize, usize)>)
        ensures
            final(self).post_set_preedit(*old(self), text@, cursor),
    {
        self.preedit = text.to_owned();
        self.preedit_cursor = cursor;
    }

    /// Commits the preedit text at the cursor, replacing any live selection.
    pub fn commit_preedit(&mut self)
        requires
            old(self).well_placed(),
        ensures
            final(self).post_commit_preedit(*old(self)),
            final(self).well_placed(),
    {
        if self.readonly || self.preedit.as_str().is_empty() {
            return;
        }
        let old_text = self.text.clone();
        let old_cursor = self.cursor;
        let old_selection = self.selection;
        let ghost s0 = *self;
        self.replace_selection();
        let mut text = String::new();
        std::mem::swap(&mut text, &mut self.preedit);
        let len = self.text_len();
        if self.cursor > len {
            self.cursor = len;
        }
        let ghost b1 = self.bytes();
        let ghost k = self.cursor as int;
        proof {
            lemma_boundary_ends(self.text@);
        }
        string_insert_str(&mut self.text, self.cursor, text.as_str());
        proof {
            lemma_splice(b1, k, k, utf8(text@));
        }
        let new_len = self.text_len();
        self.cursor = self.cursor + byte_len(text.as_str());
        self.preedit_cursor = None;
        self.selection = None;
        self.push_undo_with_state(old_text, old_cursor, old_selection);
    }

    /// Drops the preedit without committing it.
    pub fn cancel_preedit(&mut self)
        ensures
            final(self).post_set_preedit(*old(self), Seq::<char>::empty(), None),
    {
        self.preedit = String::new();
        self.preedit_cursor = None;
    }
}

/// What `handle_text` does: refused for an empty text or a read-only
/// field; otherwise the text replaces the live selection or goes in at the
/// cursor.
pub open spec fn post_handle_text(new: TextInputState, old: TextInputState, text: Seq<char>, r: bool) -> bool {
    if text.len() == 0 || old.readonly {
        !r && new.unchanged(old)
    } else {
        r && new.inserted(old, utf8(text)) && new.same_preedit(old)
    }
}

/// Inserts typed or committed text at the cursor, replacing any live
/// selection. Returns whether the state was modified.
pub fn handle_text(state: &mut TextInputState, text: &str) -> (r: bool)
    requires
        old(state).well_placed(),
    ensures
        post_handle_text(*final(state), *old(state), text@, r),
        final(state).well_placed(),
{
    if text.is_empty() || state.readonly {
        return false;
    }
    let old_text = state.text.clone();
    let old_cursor = state.cursor;
    let old_selection = state.selection;
    state.replace_selection();
    let len = state.text_len();
    if state.cursor > len {
        state.cursor = len;
    }
    let ghost b1 = state.bytes();
    let ghost k = state.cursor as int;
    proof {
        lemma_boundary_ends(state.text@);
    }
    string_insert_str(&mut state.text, state.cursor, text);
    proof {
        lemma_splice(b1, k, k, utf8(text@));
    }
    let new_len = state.text_len();
    state.cursor = state.cursor + byte_len(text);
    state.selection = None;
    state.push_undo_with_state(old_text, old_cursor, old_selection);
    true
}

} // verus!

verus! {

impl TextInputState {
    /// What a recorded deletion of the selection does: a live selection is
    /// removed and the edit recorded; a selection that is not live is
    /// dropped. The result says whether text was removed.
    pub open spec fn post_delete_recorded_selection(&self, old: Self, r: bool) -> bool {
        match live_range(old.selection, old.len_bytes()) {
            Some((a, b)) => r && self.cut(old, a as int, b as int) && self.edited(old),
            None => !r && self.caret(old) && self.cursor == old.cursor && self.selection is None,
        }
    }

    /// What `delete_before_cursor` (Backspace) does.
    pub open spec fn post_delete_before(&self, old: Self, r: bool) -> bool {
        if old.readonly {
            !r && self.unchanged(old)
        } else if old.selection is Some {
            self.post_delete_recorded_selection(old, r)
        } else if old.cursor == 0 || old.text@.len() == 0 {
            !r && self.unchanged(old)
        } else {
            r && self.cut(old, prev_start(old.graphemes(), old.cursor as int), old.cursor as int) && self.edited(old)
        }
    }

    /// What `delete_after_cursor` (Delete) does.
    pub open spec fn post_delete_after(&self, old: Self, r: bool) -> bool {
        if old.readonly {
            !r && self.unchanged(old)
        } else if old.selection is Some {
            self.post_delete_recorded_selection(old, r)
        } else if old.cursor >= old.len_bytes() || old.text@.len() == 0 {
            !r && self.unchanged(old)
        } else {
            r && self.cut(old, old.cursor as int, next_start(old.graphemes(), old.cursor as int, old.len_bytes()))
                && self.edited(old)
        }
    }

    /// What `delete_prev_word` (Ctrl+Backspace) does; a selection is
    /// deleted without being recorded.
    pub open spec fn post_delete_prev_word(&self, old: Self, r: bool) -> bool {
        if old.readonly {
            !r && self.unchanged(old)
        } else if old.selection is Some {
            self.post_delete_selection(old, r)
        } else if old.cursor == 0 || old.text@.len() == 0 {
            !r && self.unchanged(old)
        } else {
            r && self.cut(old, prev_start(old.words(), old.cursor as int), old.cursor as int) && self.edited(old)
        }
    }

    /// What `delete_next_word` (Ctrl+Delete) does; a selection is deleted
    /// without being recorded.
    pub open spec fn post_delete_next_word(&self, old: Self, r: bool) -> bool {
        if old.readonly {
            !r && self.unchanged(old)
        } else if old.selection is Some {
            self.post_delete_selection(old, r)
        } else if old.cursor >= old.len_bytes() || old.text@.len() == 0 {
            !r && self.unchanged(old)
        } else {
            r && self.cut(old, old.cursor as int, next_start(old.words(), old.cursor as int, old.len_bytes()))
                && self.edited(old)
        }
    }

    /// Deletes the grapheme cluster before the cursor, or the live
    /// selection. Returns whether the state was modified.
    pub fn delete_before_cursor(&mut self) -> (r: bool)
        requires
            old(self).well_placed(),
        ensures
            final(self).post_delete_before(*old(self), r),
            final(self).well_placed(),
    {
        if self.readonly {
            return false;
        }
        let old_text = self.text.clone();
        let old_cursor = self.cursor;
        let old_selection = self.selection;
        if self.selection.is_some() {
            let result = self.delete_selection();
            if result {
                self.push_undo_with_state(old_text, old_cursor, old_selection);
            }
            return result;
        }
        if self.cursor == 0 || self.text.as_str().is_empty() {
            return false;
        }
        let offset = prev_grapheme_boundary(self.text.as_str(), self.cursor);
        let ghost b0 = self.bytes();
        proof {
            lemma_boundary_ends(self.text@);
            lemma_prev_unique(self.graphemes(), self.cursor as int, offset as int);
        }
        string_drain(&mut self.text, offset, self.cursor);
        proof {
            lemma_splice(b0, offset as int, old_cursor as int, Seq::empty());
        }
        self.cursor = offset;
        self.push_undo_with_state(old_text, old_cursor, old_selection);
        true
    }

    /// Deletes the grapheme cluster after the cursor, or the live
    /// selection. Returns whether the state was modified.
    pub fn delete_after_cursor(&mut self) -> (r: bool)
        requires
            old(self).well_placed(),
        ensures
            final(self).post_delete_after(*old(self), r),
            final(self).well_placed(),
    {
        if self.readonly {
            return false;
        }
        let old_text = self.text.clone();
        let old_cursor = self.cursor;
        let old_selection = self.selection;
        if self.selection.is_some() {
            let result = self.delete_selection();
            if result {
                self.push_undo_with_state(old_text, old_cursor, old_selection);
            }
            return result;
        }
        if self.cursor >= self.text_len() || self.text.as_str().is_empty() {
            return false;
        }
        let end = next_grapheme_boundary(self.text.as_str(), self.cursor);
        let ghost b0 = self.bytes();
        proof {
            lemma_boundary_ends(self.text@);
            lemma_next_unique(self.text@, self.graphemes(), self.cursor as int, end as int);
        }
        string_drain(&mut self.text, self.cursor, end);
        proof {
            lemma_splice(b0, old_cursor as int, end as int, Seq::empty());
        }
        self.push_undo_with_state(old_text, old_cursor, old_selection);
        true
    }

    /// Deletes the word piece before the cursor, or the selection (without
    /// recording it). Returns whether the state was modified.
    fn delete_prev_word(&mut self) -> (r: bool)
        requires
            old(self).well_placed(),
        ensures
            final(self).post_delete_prev_word(*old(self), r),
            final(self).well_placed(),
    {
        if self.readonly {
            return false;
        }
        if self.selection.is_some() {
            return self.delete_selection();
        }
        if self.cursor == 0 || self.text.as_str().is_empty() {
            return false;
        }
        let old_text = self.text.clone();
        let old_cursor = self.cursor;
        let old_selection = self.selection;
        let word_start = prev_word_boundary(self.text.as_str(), self.cursor);
        let ghost b0 = self.bytes();
        proof {
            lemma_boundary_ends(self.text@);
            lemma_prev_unique(self.words(), self.cursor as int, word_start as int);
        }
        string_drain(&mut self.text, word_start, self.cursor);
        proof {
            lemma_splice(b0, word_start as int, old_cursor as int, Seq::empty());
        }
        self.cursor = word_start;
        self.push_undo_with_state(old_text, old_cursor, old_selection);
        true
    }

    /// Deletes the word piece after the cursor, or the selection (without
    /// recording it). Returns whether the state was modified.
    fn delete_next_word(&mut self) -> (r: bool)
        requires
            old(self).well_placed(),
        ensures
            final(self).post_delete_next_word(*old(self), r),
            final(self).well_placed(),
    {
        if self.readonly {
            return false;
        }
        if self.selection.is_some() {
            return self.delete_selection();
        }
        if self.cursor >= self.text_len() || self.text.as_str().is_empty() {
            return false;
        }
        let old_text = self.text.clone();
        let old_cursor = self.cursor;
        let old_selection = self.selection;
        let word_end = next_word_boundary(self.text.as_str(), self.cursor);
        let ghost b0 = self.bytes();
        proof {
            lemma_boundary_ends(self.text@);
            lemma_next_unique(self.text@, self.words(), self.cursor as int, word_end as int);
        }
        string_drain(&mut self.text, self.cursor, word_end);
        proof {
            lemma_splice(b0, old_cursor as int, word_end as int, Seq::empty());
        }
        self.push_undo_with_state(old_text, old_cursor, old_selection);
        true
    }
}

} // verus!

verus! {

impl TextInputState {
    /// What `cursor_prev` does: the selection is dropped and the cursor
    /// moves to the previous grapheme-cluster boundary.
    pub open spec fn post_cursor_prev(&self, old: Self) -> bool {
        &&& self.caret(old)
        &&& self.selection is None
        &&& self.cursor == (if old.cursor == 0 || old.text@.len() == 0 {
            old.cursor as int
        } else {
            prev_start(old.graphemes(), at_most(old.cursor as int, old.len_bytes()))
        })
    }

    /// What `cursor_next` does: the selection is dropped and the cursor
    /// moves to the next grapheme-cluster boundary.
    pub open spec fn post_cursor_next(&self, old: Self) -> bool {
        &&& self.caret(old)
        &&& self.selection is None
        &&& self.cursor == (if old.cursor >= old.len_bytes() || old.text@.len() == 0 {
            old.cursor as int
        } else {
            next_start(old.graphemes(), old.cursor as int, old.len_bytes())
        })
    }

    /// What `cursor_home` does.
    pub open spec fn post_cursor_home(&self, old: Self) -> bool {
        self.caret(old) && self.selection is None && self.cursor == 0
    }

    /// What `cursor_end` does.
    pub open spec fn post_cursor_end(&self, old: Self) -> bool {
        self.caret(old) && self.selection is None && self.cursor == old.len_bytes()
    }

    /// What `select_all` does: the whole text is selected, or nothing when
    /// it is empty; the cursor stays.
    pub open spec fn post_select_all(&self, old: Self) -> bool {
        &&& self.caret(old)
        &&& self.cursor == old.cursor
        &&& self.selection == (if old.text@.len() == 0 {
            None
        } else {
            Some((0usize, old.len_bytes() as usize))
        })
    }

    /// What `extend_selection_left` (Shift+Left) does: the cursor moves to
    /// the previous grapheme-cluster boundary and the selection stretches
    /// from the anchor to it.
    pub open spec fn post_extend_left(&self, old: Self) -> bool {
        if old.text@.len() == 0 || old.cursor == 0 {
            self.unchanged(old)
        } else {
            &&& self.caret(old)
            &&& self.cursor == prev_start(old.graphemes(), at_most(old.cursor as int, old.len_bytes()))
            &&& self.selection == (if self.cursor == old.cursor {
                old.selection
            } else {
                Some(ordered(self.cursor, anchor_of(old.selection, old.cursor)))
            })
        }
    }

    /// What `extend_selection_right` (Shift+Right) does: the cursor moves
    /// to the next grapheme-cluster boundary and the selection stretches
    /// from the anchor to it.
    pub open spec fn post_extend_right(&self, old: Self) -> bool {
        if old.text@.len() == 0 || old.cursor >= old.len_bytes() {
            self.unchanged(old)
        } else {
            &&& self.caret(old)
            &&& self.cursor == next_start(old.graphemes(), old.cursor as int, old.len_bytes())
            &&& self.selection == (if self.cursor == old.cursor {
                old.selection
            } else {
                Some(ordered(self.cursor, anchor_of(old.selection, old.cursor)))
            })
        }
    }

    /// What `extend_selection_to_start` (Shift+Home) does.
    pub open spec fn post_extend_to_start(&self, old: Self) -> bool {
        if old.text@.len() == 0 {
            self.unchanged(old)
        } else {
            &&& self.caret(old)
            &&& self.cursor == 0
            &&& self.selection == Some((0usize, match old.selection {
                None => old.cursor,
                Some((_, e)) => e,
            }))
        }
    }

    /// What `extend_selection_to_end` (Shift+End) does.
    pub open spec fn post_extend_to_end(&self, old: Self) -> bool {
        if old.text@.len() == 0 {
            self.unchanged(old)
        } else {
            &&& self.caret(old)
            &&& self.cursor == old.len_bytes()
            &&& self.selection == Some((match old.selection {
                None => old.cursor,
                Some((s, _)) => s,
            }, old.len_bytes() as usize))
        }
    }

    /// What `jump_word_left` (Ctrl+Left) does.
    pub open spec fn post_jump_word_left(&self, old: Self) -> bool {
        if old.text@.len() == 0 || old.cursor == 0 {
            self.unchanged(old)
        } else {
            &&& self.caret(old)
            &&& self.selection is None
            &&& self.cursor == prev_start(old.words(), at_most(old.cursor as int, old.len_bytes()))
        }
    }

    /// What `jump_word_right` (Ctrl+Right) does.
    pub open spec fn post_jump_word_right(&self, old: Self) -> bool {
        if old.text@.len() == 0 || old.cursor >= old.len_bytes() {
            self.unchanged(old)
        } else {
            &&& self.caret(old)
            &&& self.selection is None
            &&& self.cursor == next_start(old.words(), old.cursor as int, old.len_bytes())
        }
    }

    /// Moves the cursor one grapheme cluster to the left, dropping the
    /// selection.
    pub fn cursor_prev(&mut self)
        ensures
            final(self).post_cursor_prev(*old(self)),
            old(self).well_placed() ==> final(self).well_placed(),
    {
        self.selection = None;
        if self.cursor == 0 || self.text.as_str().is_empty() {
            return;
        }
        let p = prev_grapheme_boundary(self.text.as_str(), self.cursor);
        proof {
            lemma_prev_unique(self.graphemes(), at_most(self.cursor as int, self.len_bytes()), p as int);
        }
        self.cursor = p;
    }

    /// Moves the cursor one grapheme cluster to the right, dropping the
    /// selection.
    pub fn cursor_next(&mut self)
        ensures
            final(self).post_cursor_next(*old(self)),
            old(self).well_placed() ==> final(self).well_placed(),
    {
        self.selection = None;
        if self.cursor >= self.text_len() || self.text.as_str().is_empty() {
            return;
        }
        let n = next_grapheme_boundary(self.text.as_str(), self.cursor);
        proof {
            lemma_next_unique(self.text@, self.graphemes(), self.cursor as int, n as int);
        }
        self.cursor = n;
    }

    /// Moves the cursor to the start of the text, dropping the selection.
    pub fn cursor_home(&mut self)
        ensures
            final(self).post_cursor_home(*old(self)),
            final(self).well_placed(),
    {
        self.selection = None;
        self.cursor = 0;
        proof {
            lemma_boundary_ends(self.text@);
        }
    }

    /// Moves the cursor to the end of the text, dropping the selection.
    pub fn cursor_end(&mut self)
        ensures
            final(self).post_cursor_end(*old(self)),
            final(self).well_placed(),
    {
        self.selection = None;
        self.cursor = self.text_len();
        proof {
            lemma_boundary_ends(self.text@);
        }
    }

    /// Selects the whole text.
    pub fn select_all(&mut self)
        ensures
            final(self).post_select_all(*old(self)),
            old(self).well_placed() ==> final(self).well_placed(),
    {
        if self.text.as_str().is_empty() {
            self.selection = None;
            return;
        }
        self.selection = Some((0, self.text_len()));
        proof {
            lemma_boundary_ends(self.text@);
        }
    }

    /// Moves the cursor one grapheme cluster left, extending the selection.
    fn extend_selection_left(&mut self)
        ensures
            final(self).post_extend_left(*old(self)),
            old(self).well_placed() && (old(self).selection is None || live_range(old(self).selection, old(self).len_bytes()) is Some)
                ==> final(self).well_placed(),
    {
        if self.text.as_str().is_empty() || self.cursor == 0 {
            return;
        }
        let old = self.cursor;
        let p = prev_grapheme_boundary(self.text.as_str(), self.cursor);
        proof {
            lemma_boundary_ends(self.text@);
            lemma_prev_unique(self.graphemes(), at_most(self.cursor as int, self.len_bytes()), p as int);
        }
        self.cursor = p;
        if old == self.cursor {
            return;
        }
        let anchor = match self.selection {
            None => old,
            Some((start, end)) => {
                if old == start {
                    end
                } else {
                    start
                }
            },
        };
        self.selection = Some(
            if self.cursor < anchor {
                (self.cursor, anchor)
            } else {
                (anchor, self.cursor)
            },
        );
    }

    /// Moves the cursor one grapheme cluster right, extending the selection.
    fn extend_selection_right(&mut self)
        ensures
            final(self).post_extend_right(*old(self)),
            old(self).well_placed() && (old(self).selection is None || live_range(old(self).selection, old(self).len_bytes()) is Some)
                ==> final(self).well_placed(),
    {
        if self.text.as_str().is_empty() || self.cursor >= self.text_len() {
            return;
        }
        let old = self.cursor;
        let n = next_grapheme_boundary(self.text.as_str(), self.cursor);
        proof {
            lemma_boundary_ends(self.text@);
            lemma_next_unique(self.text@, self.graphemes(), self.cursor as int, n as int);
        }
        self.cursor = n;
        if old == self.cursor {
            return;
        }
        let anchor = match self.selection {
            None => old,
            Some((start, end)) => {
                if old == start {
                    end
                } else {
                    start
                }
            },
        };
        self.selection = Some(
            if self.cursor < anchor {
                (self.cursor, anchor)
            } else {
                (anchor, self.cursor)
            },
        );
    }

    /// Extends the selection to the start of the text.
    fn extend_selection_to_start(&mut self)
        ensures
            final(self).post_extend_to_start(*old(self)),
    {
        if self.text.as_str().is_empty() {
            return;
        }
        let anchor = match self.selection {
            None => self.cursor,
            Some((_start, end)) => end,
        };
        self.cursor = 0;
        self.selection = Some((0, anchor));
    }

    /// Extends the selection to the end of the text.
    fn extend_selection_to_end(&mut self)
        ensures
            final(self).post_extend_to_end(*old(self)),
    {
        if self.text.as_str().is_empty() {
            return;
        }
        let anchor = match self.selection {
            None => self.cursor,
            Some((start, _end)) => start,
        };
        let len = self.text_len();
        self.cursor = len;
        self.selection = Some((anchor, len));
    }

    /// Moves the cursor to the previous word boundary, dropping the
    /// selection.
    fn jump_word_left(&mut self)
        ensures
            final(self).post_jump_word_left(*old(self)),
            old(self).well_placed() ==> final(self).well_placed(),
    {
        if self.text.as_str().is_empty() || self.cursor == 0 {
            return;
        }
        self.selection = None;
        let p = prev_word_boundary(self.text.as_str(), self.cursor);
        proof {
            lemma_prev_unique(self.words(), at_most(self.cursor as int, self.len_bytes()), p as int);
        }
        self.cursor = p;
    }

    /// Moves the cursor to the next word boundary, dropping the selection.
    fn jump_word_right(&mut self)
        ensures
            final(self).post_jump_word_right(*old(self)),
            old(self).well_placed() ==> final(self).well_placed(),
    {
        if self.text.as_str().is_empty() || self.cursor >= self.text_len() {
            return;
        }
        self.selection = None;
        let n = next_word_boundary(self.text.as_str(), self.cursor);
        proof {
            lemma_next_unique(self.text@, self.words(), self.cursor as int, n as int);
        }
        self.cursor = n;
    }
}

} // verus!

verus! {

impl TextInputState {
    /// What `move_cursor_to_offset` does.
    pub open spec fn post_move_cursor_to_offset(&self, old: Self, offset: usize) -> bool {
        &&& self.caret(old)
        &&& self.selection is None
        &&& self.cursor == at_most(offset as int, old.len_bytes())
    }

    /// What `set_selection_range` does: both ends are clamped to the text,
    /// the start to at most the end; an empty range selects nothing; the
    /// cursor goes to the end.
    pub open spec fn post_set_selection_range(&self, old: Self, start: usize, end: usize) -> bool {
        let ce = at_most(end as int, old.len_bytes());
        let cs = at_most(start as int, ce);
        &&& self.caret(old)
        &&& self.cursor == ce
        &&& self.selection == (if cs < ce {
            Some((cs as usize, ce as usize))
        } else {
            None
        })
    }

    /// What `select_word_at_offset` does: the first word piece around the
    /// (clamped) offset is selected, ends included, with the cursor at its
    /// end; with an empty text the cursor goes to 0.
    pub open spec fn post_select_word(&self, old: Self, offset: usize) -> bool {
        &&& self.caret(old)
        &&& if old.text@.len() == 0 {
            self.cursor == 0 && self.selection is None
        } else {
            let ws = old.words();
            let len = old.len_bytes();
            let c = at_most(offset as int, len);
            match self.selection {
                Some((a, b)) => exists|i: int|
                    0 <= i < ws.len() && #[trigger] covers(ws, len, i, c) && (forall|j: int|
                        0 <= j < i ==> !#[trigger] covers(ws, len, j, c)) && a == ws[i] && b == piece_end(ws, len, i)
                        && self.cursor == b,
                None => (forall|i: int| 0 <= i < ws.len() ==> !#[trigger] covers(ws, len, i, c)) && self.cursor == c,
            }
        }
    }

    /// The text to show: one `password_char` per grapheme cluster when the
    /// field is a password field, the text itself otherwise.
    pub open spec fn displayed(&self) -> Seq<char> {
        if self.password {
            Seq::new(self.graphemes().len(), |i: int| self.password_char)
        } else {
            self.text@
        }
    }

    /// Moves the cursor to a byte offset, clamped to the text, dropping the
    /// selection.
    pub fn move_cursor_to_offset(&mut self, byte_offset: usize)
        ensures
            final(self).post_move_cursor_to_offset(*old(self), byte_offset),
    {
        let len = self.text_len();
        self.cursor = if byte_offset < len { byte_offset } else { len };
        self.selection = None;
    }

    /// Selects `start..end`, both clamped to the text; the cursor goes to
    /// the end.
    pub fn set_selection_range(&mut self, start: usize, end: usize)
        ensures
            final(self).post_set_selection_range(*old(self), start, end),
    {
        let len = self.text_len();
        let clamped_end = if end < len { end } else { len };
        let clamped_start = if start < clamped_end { start } else { clamped_end };
        if clamped_start < clamped_end {
            self.selection = Some((clamped_start, clamped_end));
        } else {
            self.selection = None;
        }
        self.cursor = clamped_end;
    }

    /// Selects the word piece around a byte offset (double-click).
    pub fn select_word_at_offset(&mut self, offset: usize)
        ensures
            final(self).post_select_word(*old(self), offset),
            final(self).selection is Some ==> final(self).well_placed(),
    {
        if self.text.as_str().is_empty() {
            self.cursor = 0;
            self.selection = None;
            return;
        }
        let len = self.text_len();
        let clamped = if offset < len { offset } else { len };
        let words = split_word_bound_indices(self.text.as_str());
        let ghost ws = words@;
        proof {
            lemma_boundary_ends(self.text@);
        }
        let mut i: usize = 0;
        while i < words.len()
            invariant
                *self == *old(self),
                ws == words@,
                ws == word_starts(self.text@),
                segmentation(self.text@, ws),
                len == utf8(self.text@).len(),
                clamped == at_most(offset as int, len as int),
                0 <= i <= ws.len(),
                forall|j: int| 0 <= j < i ==> !#[trigger] covers(ws, len as int, j, clamped as int),
            decreases ws.len() - i,
        {
            let start = words[i];
            let end = if i + 1 < words.len() { words[i + 1] } else { len };
            if start <= clamped && clamped <= end {
                proof {
                    assert(covers(ws, len as int, i as int, clamped as int));
                    if i + 1 < ws.len() {
                        assert(boundary(self.text@, ws[i + 1] as int));
                    }
                    assert(boundary(self.text@, ws[i as int] as int));
                }
                self.selection = Some((start, end));
                self.cursor = end;
                proof {
                    let o = *old(self);
                    assert(self.caret(o));
                    assert(o.words() == ws);
                    assert(o.len_bytes() == len as int);
                    assert(at_most(offset as int, o.len_bytes()) == clamped as int);
                    assert(piece_end(ws, len as int, i as int) == end as int);
                    assert(forall|j: int| 0 <= j < i ==> !#[trigger] covers(ws, len as int, j, clamped as int));
                }
                return;
            }
            i += 1;
        }
        self.cursor = clamped;
        self.selection = None;
    }

    /// The text to show in the field: masked with one `password_char` per
    /// grapheme cluster for a password field. The clusters are counted
    /// from their start offsets.
    pub fn display_text(&self) -> (r: String)
        ensures
            r@ == self.displayed(),
    {
        if self.password {
            let count = grapheme_indices(self.text.as_str(), true).len();
            let mut out = String::new();
            let mut i: usize = 0;
            while i < count
                invariant
                    0 <= i <= count,
                    out@ == Seq::new(i as nat, |k: int| self.password_char),
                decreases count - i,
            {
                string_push(&mut out, self.password_char);
                i += 1;
                proof {
                    assert(out@ =~= Seq::new(i as nat, |k: int| self.password_char));
                }
            }
            out
        } else {
            self.text.clone()
        }
    }
}

} // verus!

verus! {

/// The field lost focus and nothing else changed.
pub open spec fn blurred(new: TextInputState, old: TextInputState) -> bool {
    &&& new.text == old.text
    &&& new.cursor == old.cursor
    &&& new.selection == old.selection
    &&& new.same_preedit(old)
    &&& new.same_logs(old)
    &&& !new.focused
    &&& new.password == old.password
    &&& new.password_char == old.password_char
    &&& new.placeholder == old.placeholder
    &&& new.readonly == old.readonly
    &&& new.invalid == old.invalid
    &&& new.history_limit() == old.history_limit()
}

/// What `handle_key` does with a key event.
pub open spec fn post_handle_key(
    new: TextInputState,
    old: TextInputState,
    key: PlatformKey,
    pressed: bool,
    ctrl: bool,
    shift: bool,
    r: bool,
) -> bool {
    if !pressed {
        !r && new.unchanged(old)
    } else {
        match key {
            PlatformKey::Tab | PlatformKey::Enter | PlatformKey::Space | PlatformKey::Other => !r && new.unchanged(old),
            PlatformKey::Escape => if old.focused {
                r && blurred(new, old)
            } else {
                !r && new.unchanged(old)
            },
            _ => if !old.focused {
                !r && new.unchanged(old)
            } else {
                match key {
                    PlatformKey::ArrowLeft => r && if ctrl {
                        new.post_jump_word_left(old)
                    } else if shift {
                        new.post_extend_left(old)
                    } else {
                        new.post_cursor_prev(old)
                    },
                    PlatformKey::ArrowRight => r && if ctrl {
                        new.post_jump_word_right(old)
                    } else if shift {
                        new.post_extend_right(old)
                    } else {
                        new.post_cursor_next(old)
                    },
                    PlatformKey::Backspace => if ctrl {
                        new.post_delete_prev_word(old, r)
                    } else {
                        new.post_delete_before(old, r)
                    },
                    PlatformKey::Delete => if ctrl {
                        new.post_delete_next_word(old, r)
                    } else {
                        new.post_delete_after(old, r)
                    },
                    PlatformKey::Home => r && if shift {
                        new.post_extend_to_start(old)
                    } else {
                        new.post_cursor_home(old)
                    },
                    PlatformKey::End => r && if shift {
                        new.post_extend_to_end(old)
                    } else {
                        new.post_cursor_end(old)
                    },
                    _ => true,
                }
            },
        }
    }
}

/// Applies a key event to a text field: caret movement, selection
/// extension (Shift), word-wise movement and deletion (Ctrl), Backspace,
/// Delete, Home, End, and Escape to blur. Tab, Enter, Space and other keys
/// change nothing; a released key changes nothing. Returns whether the
/// state was modified. The clipboard is not used by any key here.
pub fn handle_key(
    state: &mut TextInputState,
    key: &PlatformKey,
    pressed: bool,
    _clipboard: Option<&String>,
    ctrl: bool,
    shift: bool,
) -> (r: bool)
    requires
        pressed && old(state).focused && (*key is Backspace || *key is Delete) ==> old(state).well_placed(),
    ensures
        post_handle_key(*final(state), *old(state), *key, pressed, ctrl, shift, r),
{
    if !pressed {
        return false;
    }
    match key {
        PlatformKey::Tab => false,
        PlatformKey::Enter => false,
        PlatformKey::Escape => {
            if state.focused {
                state.focused = false;
                true
            } else {
                false
            }
        },
        PlatformKey::ArrowLeft => {
            if !state.focused {
                return false;
            }
            if ctrl {
                state.jump_word_left();
                true
            } else if shift {
                state.extend_selection_left();
                true
            } else {
                state.cursor_prev();
                true
            }
        },
        PlatformKey::ArrowRight => {
            if !state.focused {
                return false;
            }
            if ctrl {
                state.jump_word_right();
                true
            } else if shift {
                state.extend_selection_right();
                true
            } else {
                state.cursor_next();
                true
            }
        },
        PlatformKey::Backspace => {
            if !state.focused {
                return false;
            }
            if ctrl {
                state.delete_prev_word()
            } else {
                state.delete_before_cursor()
            }
        },
        PlatformKey::Delete => {
            if !state.focused {
                return false;
            }
            if ctrl {
                state.delete_next_word()
            } else {
                state.delete_after_cursor()
            }
        },
        PlatformKey::Home => {
            if !state.focused {
                return false;
            }
            if shift {
                state.extend_selection_to_start();
            } else {
                state.cursor_home();
            }
            true
        },
        PlatformKey::End => {
            if !state.focused {
                return false;
            }
            if shift {
                state.extend_selection_to_end();
            } else {
                state.cursor_end();
            }
            true
        },
        PlatformKey::Space | PlatformKey::Other => {
            if !state.focused {
                return false;
            }
            false
        },
    }
}

} // verus!

verus! {

/// What copying the selection to the clipboard leaves there: the selected
/// text when a clipboard is present, nothing new otherwise.
pub open spec fn copied_to(clip_old: Option<String>, clip_new: Option<String>, selected: Seq<u8>) -> bool {
    match clip_old {
        Some(_) => clip_new matches Some(t) && utf8(t@) == selected,
        None => clip_new is None,
    }
}

/// What `handle_keyboard_shortcut` does with the key text of a Ctrl
/// shortcut; `clip_old` and `clip_new` are the clipboard text before and
/// after (`None` when no clipboard is available).
pub open spec fn post_shortcut(
    new: TextInputState,
    old: TextInputState,
    key: Seq<char>,
    clip_old: Option<String>,
    clip_new: Option<String>,
    r: bool,
) -> bool {
    if !old.focused {
        !r && new.unchanged(old) && clip_new == clip_old
    } else if key == seq!['a'] {
        r && new.post_select_all(old) && clip_new == clip_old
    } else if key == seq!['c'] {
        &&& r
        &&& new.unchanged(old)
        &&& match live_range(old.selection, old.len_bytes()) {
            Some((a, b)) => copied_to(clip_old, clip_new, old.bytes().subrange(a as int, b as int)),
            None => clip_new == clip_old,
        }
    } else if key == seq!['x'] {
        if old.readonly {
            !r && new.unchanged(old) && clip_new == clip_old
        } else {
            &&& r
            &&& match live_range(old.selection, old.len_bytes()) {
                Some((a, b)) => new.cut(old, a as int, b as int) && new.edited(old) && copied_to(
                    clip_old,
                    clip_new,
                    old.bytes().subrange(a as int, b as int),
                ),
                None => new.unchanged(old) && clip_new == clip_old,
            }
        }
    } else if key == seq!['v'] {
        &&& r
        &&& clip_new == clip_old
        &&& match clip_old {
            Some(t) => post_handle_text(new, old, t@, t@.len() > 0 && !old.readonly),
            None => new.unchanged(old),
        }
    } else {
        !r && new.unchanged(old) && clip_new == clip_old
    }
}

/// Handles the clipboard shortcuts of a focused text field, given the key
/// text of a Ctrl chord: "a" selects all, "c" copies the live selection to
/// the clipboard, "x" cuts it, "v" pastes the clipboard text. `clipboard`
/// holds the clipboard text (`None` when no clipboard is available); copy
/// and cut replace it. Returns whether the shortcut was handled.
pub fn handle_keyboard_shortcut(state: &mut TextInputState, key_text: &str, clipboard: &mut Option<String>) -> (r: bool)
    requires
        old(state).focused && (key_text@ == seq!['c'] || key_text@ == seq!['x']) ==> old(state).selection_placed(),
        old(state).focused && key_text@ == seq!['v'] ==> old(state).well_placed(),
    ensures
        post_shortcut(*final(state), *old(state), key_text@, *old(clipboard), *final(clipboard), r),
{
    if !state.focused {
        return false;
    }
    let letter = if key_text.unicode_len() == 1 {
        Some(key_text.get_char(0))
    } else {
        None
    };
    proof {
        if letter is Some {
            assert(key_text@ =~= seq![letter->0]);
        }
    }
    match letter {
        Some('a') => {
            state.select_all();
            true
        },
        Some('c') => {
            if let Some((start, end)) = state.selection {
                let len = state.text_len();
                if start < len && end <= len && start < end {
                    let copied = substring(state.text.as_str(), start, end);
                    if clipboard.is_some() {
                        *clipboard = Some(copied);
                    }
                }
            }
            true
        },
        Some('x') => {
            if state.readonly {
                return false;
            }
            if let Some((start, end)) = state.selection {
                let len = state.text_len();
                if start < len && end <= len && start < end {
                    let old_text = state.text.clone();
                    let old_cursor = state.cursor;
                    let old_selection = state.selection;
                    let cut = substring(state.text.as_str(), start, end);
                    if clipboard.is_some() {
                        *clipboard = Some(cut);
                    }
                    let ghost b0 = state.bytes();
                    string_drain(&mut state.text, start, end);
                    proof {
                        lemma_splice(b0, start as int, end as int, Seq::empty());
                    }
                    state.cursor = start;
                    state.selection = None;
                    state.push_undo_with_state(old_text, old_cursor, old_selection);
                }
            }
            true
        },
        Some('v') => {
            match clipboard {
                Some(text) => {
                    handle_text(state, text.as_str());
                },
                None => {},
            }
            true
        },
        _ => {
            proof {
                assert(key_text@ != seq!['a']);
                assert(key_text@ != seq!['c']);
                assert(key_text@ != seq!['x']);
                assert(key_text@ != seq!['v']);
            }
            false
        },
    }
}

} // verus!

verus! {

/// Shift+End on a focused, non-empty field moves the cursor to the end
/// and selects from the anchor to there: the left end of a selection that
/// was there (so the new selection contains it), or the cursor when there
/// was none.
pub proof fn lemma_shift_end_keeps_anchor(new: TextInputState, old: TextInputState, ctrl: bool, r: bool)
    requires
        post_handle_key(new, old, PlatformKey::End, true, ctrl, true, r),
        old.focused,
        old.text@.len() > 0,
    ensures
        r,
        new.cursor == old.len_bytes(),
        new.text@ == old.text@,
        old.selection matches Some((s, e)) ==> new.selection == Some((s, old.len_bytes() as usize)),
        old.selection is None ==> new.selection == Some((old.cursor, old.len_bytes() as usize)),
{
}

/// Shift+Home on a focused, non-empty field moves the cursor to the start
/// and selects from there to the anchor: the right end of a selection that
/// was there (so the new selection contains it), or the cursor when there
/// was none.
pub proof fn lemma_shift_home_keeps_anchor(new: TextInputState, old: TextInputState, ctrl: bool, r: bool)
    requires
        post_handle_key(new, old, PlatformKey::Home, true, ctrl, true, r),
        old.focused,
        old.text@.len() > 0,
    ensures
        r,
        new.cursor == 0,
        new.text@ == old.text@,
        old.selection matches Some((s, e)) ==> new.selection == Some((0usize, e)),
        old.selection is None ==> new.selection == Some((0usize, old.cursor)),
{
}

/// Undoing an edit right after it brings back the text, cursor and
/// selection from before the edit, and leaves that edit as the one thing
/// to redo.
pub proof fn lemma_undo_restores_edit(before: TextInputState, after: TextInputState, undone: TextInputState, r: bool)
    requires
        before.history_limit() > 0,
        after.edited(before),
        undone.post_undo(after, r),
    ensures
        r,
        undone.snapshot() == before.snapshot(),
        undone.redo_log() == seq![(before.snapshot(), after.snapshot())],
{
    let pushed = before.undo_log().push((before.snapshot(), after.snapshot()));
    assert(pushed.last() == (before.snapshot(), after.snapshot()));
    if pushed.len() > before.history_limit() {
        assert(pushed.drop_first().last() == pushed.last());
    }
    assert(after.undo_log().last() == (before.snapshot(), after.snapshot()));
    assert(undone.redo_log() =~= seq![(before.snapshot(), after.snapshot())]);
}

/// Redoing right after an undo re-applies the edit that was undone: the
/// text, cursor and selection that edit produced come back, and both logs
/// are as they were before the undo.
pub proof fn lemma_redo_after_undo(s1: TextInputState, s2: TextInputState, s3: TextInputState, r2: bool, r3: bool)
    requires
        s1.undo_log().len() > 0,
        s2.post_undo(s1, r2),
        s3.post_redo(s2, r3),
    ensures
        r2,
        r3,
        s3.snapshot() == s1.undo_log().last().1,
        s3.undo_log() == s1.undo_log(),
        s3.redo_log() == s1.redo_log(),
{
    assert(s3.undo_log() =~= s1.undo_log());
    assert(s3.redo_log() =~= s1.redo_log());
}

/// An edit followed by undo and redo ends in the state the edit produced.
pub proof fn lemma_edit_undo_redo(before: TextInputState, after: TextInputState, s2: TextInputState, s3: TextInputState, r2: bool, r3: bool)
    requires
        before.history_limit() > 0,
        after.edited(before),
        s2.post_undo(after, r2),
        s3.post_redo(s2, r3),
    ensures
        s3.snapshot() == after.snapshot(),
        s3.undo_log() == after.undo_log(),
        s3.redo_log() == after.redo_log(),
{
    lemma_undo_restores_edit(before, after, s2, r2);
    lemma_redo_after_undo(after, s2, s3, r2, r3);
    let pushed = before.undo_log().push((before.snapshot(), after.snapshot()));
    if pushed.len() > before.history_limit() {
        assert(pushed.drop_first().last() == pushed.last());
    }
}

/// Undoing right after a redo reverts the edit again: the state from
/// before that edit comes back, and both logs are as they were before the
/// redo; after an undo, undo following redo ends where the undo ended.
pub proof fn lemma_undo_after_redo(s1: TextInputState, s2: TextInputState, s3: TextInputState, s4: TextInputState, r2: bool, r3: bool, r4: bool)
    requires
        s1.undo_log().len() > 0,
        s2.post_undo(s1, r2),
        s3.post_redo(s2, r3),
        s4.post_undo(s3, r4),
    ensures
        r4,
        s4.snapshot() == s2.snapshot(),
        s4.undo_log() == s2.undo_log(),
        s4.redo_log() == s2.redo_log(),
{
    lemma_redo_after_undo(s1, s2, s3, r2, r3);
    assert(s4.undo_log() =~= s2.undo_log());
    assert(s4.redo_log() =~= s2.redo_log());
}

/// After an edit nothing is left to redo.
pub proof fn lemma_edit_clears_redo(before: TextInputState, after: TextInputState, s2: TextInputState, r: bool)
    requires
        after.edited(before),
        s2.post_redo(after, r),
    ensures
        !r,
        s2.unchanged(after),
{
}

impl Default for TextInputState {
    /// The same field as `TextInputState::new`.
    fn default() -> (r: Self)
        ensures
            r.text@ == Seq::<char>::empty(),
            r.cursor == 0,
            r.selection is None,
            r.preedit@ == Seq::<char>::empty(),
            r.preedit_cursor is None,
            !r.focused,
            !r.password,
            r.password_char == '\u{2022}',
            r.placeholder@ == Seq::<char>::empty(),
            !r.readonly,
            !r.invalid,
            r.undo_log() == Seq::<(Snapshot, Snapshot)>::empty(),
            r.redo_log() == Seq::<(Snapshot, Snapshot)>::empty(),
            r.history_limit() == 50,
            r.well_placed(),
    {
        TextInputState::new()
    }
}


/// Which theme colour a text field's border takes.
#[derive(Clone, Copy, Debug, PartialEq, Eq, Structural)]
pub enum BorderRole {
    /// The danger colour, for invalid input.
    Danger,
    /// The focus-ring colour.
    Ring,
    /// The plain border colour.
    Border,
}

impl TextInputState {
    /// The border of the field: invalid input shows the danger colour over
    /// focus, focus the ring colour, else the plain border; the second
    /// value says whether it is dimmed, which a read-only field is.
    pub fn border_style(&self, focused: bool) -> (r: (BorderRole, bool))
        ensures
            r.0 == (if self.invalid {
                BorderRole::Danger
            } else if focused {
                BorderRole::Ring
            } else {
                BorderRole::Border
            }),
            r.1 == self.readonly,
    {
        let role = if self.invalid {
            BorderRole::Danger
        } else if focused {
            BorderRole::Ring
        } else {
            BorderRole::Border
        };
        (role, self.readonly)
    }
}

} // verus!

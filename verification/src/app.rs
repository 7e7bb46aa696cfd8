//! The shared application state and the interaction controller: the registry
//! of discovered entries with its deletion state machine, and the cursor,
//! sort-key and command logic that consumes one input event at a time.

use vstd::prelude::*;

use crate::color::Rgb;
use crate::files::{DeletionState, DirEntry};
use crate::present::{id_at_visual, rendered_models};
use crate::{cycle_next_spec, cycle_prev_spec, Sorting};

verus! {

/// Whether some entry of `s` carries the identifier `id`.
pub open spec fn has_id(s: Seq<DirEntry>, id: u64) -> bool {
    exists|j: int| 0 <= j < s.len() && s[j].id == id
}

/// The index of the entry carrying `id` (meaningful when `has_id` holds and
/// identifiers are unique).
pub open spec fn idx_of(s: Seq<DirEntry>, id: u64) -> int {
    choose|j: int| 0 <= j < s.len() && s[j].id == id
}

/// Identifiers are pairwise distinct and all below the allocation counter.
pub open spec fn wf_entries(s: Seq<DirEntry>, next_id: u64) -> bool {
    &&& (forall|i: int, j: int| 0 <= i < j < s.len() ==> s[i].id != s[j].id)
    &&& (forall|i: int| 0 <= i < s.len() ==> #[trigger] s[i].id < next_id)
}

/// What a delete request does to the entry list: a `Deleted` entry is
/// dismissed (removed), a `Deleting` entry is left alone (only one worker
/// per entry may be in flight), and a `Ready` or `Error` entry moves to
/// `Deleting`.  An unknown identifier changes nothing.
pub open spec fn request_delete_spec(s: Seq<DirEntry>, id: u64) -> Seq<DirEntry> {
    if !has_id(s, id) {
        s
    } else {
        let i = idx_of(s, id);
        match s[i].deletion_state {
            DeletionState::Deleted => s.remove(i),
            DeletionState::Deleting => s,
            _ => s.update(i, (DirEntry { deletion_state: DeletionState::Deleting, ..s[i] })),
        }
    }
}

/// What a worker's completion report does to the entry list: the entry moves
/// from `Deleting` to `Deleted` on success and to `Error` on failure.  A
/// report for an entry not currently `Deleting`, or for an unknown
/// identifier, changes nothing.
pub open spec fn finish_delete_spec(s: Seq<DirEntry>, id: u64, success: bool) -> Seq<DirEntry> {
    if has_id(s, id) && s[idx_of(s, id)].deletion_state == DeletionState::Deleting {
        let i = idx_of(s, id);
        s.update(
            i,
            (DirEntry {
                deletion_state: if success {
                    DeletionState::Deleted
                } else {
                    DeletionState::Error
                },
                ..s[i]
            }),
        )
    } else {
        s
    }
}

/// The reply to a delete request.
#[derive(Debug)]
pub enum DeleteCommand {
    /// The entry moved to `Deleting`; a worker should now remove the subtree
    /// at the carried path and report back through `finish_delete`.
    Start(String),
    /// The entry was already `Deleted` and has been dismissed from the
    /// registry.
    Dismissed,
    /// Nothing changed: the identifier is unknown or a worker is already in
    /// flight for it.
    Ignored,
}

/// The shared store of discovered entries plus the scan-in-progress flag.
/// All access is serialized outside this crate; in here it is a plain value.
pub struct Registry {
    pub entries: Vec<DirEntry>,
    pub loading: bool,
    pub next_id: u64,
}

impl Registry {
    pub open spec fn wf(self) -> bool {
        wf_entries(self.entries@, self.next_id)
    }

    /// Created empty, with the scan considered in progress.
    pub fn new() -> (r: Registry)
        ensures
            r.wf(),
            r.entries@.len() == 0,
            r.loading == true,
            r.next_id == 0,
    {
        Registry { entries: Vec::new(), loading: true, next_id: 0 }
    }

    pub fn len(&self) -> (n: usize)
        ensures
            n == self.entries@.len(),
    {
        self.entries.len()
    }

    pub fn is_loading(&self) -> (b: bool)
        ensures
            b == self.loading,
    {
        self.loading
    }

    /// The scan is over: new entries will no longer appear.
    pub fn finish_scan(&mut self)
        ensures
            final(self).entries == old(self).entries,
            final(self).loading == false,
            final(self).next_id == old(self).next_id,
    {
        self.loading = false;
    }

    /// Appends a freshly discovered match under a fresh identifier, which is
    /// returned.
    pub fn append(&mut self, path: String, size: u64) -> (id: u64)
        requires
            old(self).wf(),
            old(self).next_id < u64::MAX,
        ensures
            final(self).wf(),
            id == old(self).next_id,
            final(self).entries@ == old(self).entries@.push(
                (DirEntry { id, path, size, deletion_state: DeletionState::Ready }),
            ),
            final(self).next_id == old(self).next_id + 1,
            final(self).loading == old(self).loading,
    {
        let id = self.next_id;
        self.entries.push(DirEntry::new(id, path, size));
        self.next_id = self.next_id + 1;
        id
    }

    /// The first index currently holding the entry with identifier `id`,
    /// if any (under `wf` the only one).
    pub fn find_index(&self, id: u64) -> (r: Option<usize>)
        ensures
            (r is None) <==> !has_id(self.entries@, id),
            r matches Some(i) ==> 0 <= i < self.entries@.len() && self.entries@[i as int].id == id
                && (forall|j: int| 0 <= j < i ==> self.entries@[j].id != id),
    {
        let mut i: usize = 0;
        while i < self.entries.len()
            invariant
                i <= self.entries@.len(),
                forall|j: int| 0 <= j < i ==> self.entries@[j].id != id,
            decreases self.entries@.len() - i,
        {
            if self.entries[i].id == id {
                return Some(i);
            }
            i = i + 1;
        }
        None
    }

    /// Handles one user delete request against the entry with identifier
    /// `id`, per the deletion state machine.  The entry is marked before any
    /// disk work happens; the caller runs the actual removal and reports
    /// through `finish_delete`.
    pub fn request_delete(&mut self, id: u64) -> (cmd: DeleteCommand)
        requires
            old(self).wf(),
        ensures
            final(self).wf(),
            final(self).entries@ == request_delete_spec(old(self).entries@, id),
            final(self).loading == old(self).loading,
            final(self).next_id == old(self).next_id,
            (match cmd {
                DeleteCommand::Ignored => !has_id(old(self).entries@, id) || old(self).entries@[
                    idx_of(old(self).entries@, id)
                ].deletion_state == DeletionState::Deleting,
                DeleteCommand::Dismissed => has_id(old(self).entries@, id) && old(self).entries@[
                    idx_of(old(self).entries@, id)
                ].deletion_state == DeletionState::Deleted,
                DeleteCommand::Start(p) => has_id(old(self).entries@, id) && (old(self).entries@[
                    idx_of(old(self).entries@, id)
                ].deletion_state == DeletionState::Ready || old(self).entries@[
                    idx_of(old(self).entries@, id)
                ].deletion_state == DeletionState::Error) && p@ == old(self).entries@[
                    idx_of(old(self).entries@, id)
                ].path@,
            }),
    {
        let ghost s = self.entries@;
        match self.find_index(id) {
            None => DeleteCommand::Ignored,
            Some(i) => {
                proof {
                    lemma_idx_of_unique(s, self.next_id, id, i as int);
                }
                let st = self.entries[i].deletion_state;
                match st {
                    DeletionState::Deleted => {
                        self.entries.remove(i);
                        proof {
                            lemma_wf_remove(s, self.next_id, i as int);
                        }
                        DeleteCommand::Dismissed
                    },
                    DeletionState::Deleting => DeleteCommand::Ignored,
                    _ => {
                        let mut e = self.entries.remove(i);
                        e.deletion_state = DeletionState::Deleting;
                        let p = e.path.clone();
                        self.entries.insert(i, e);
                        proof {
                            assert(self.entries@ =~= s.update(
                                i as int,
                                (DirEntry { deletion_state: DeletionState::Deleting, ..s[i as int] }),
                            ));
                            lemma_wf_update_state(s, self.next_id, i as int, DeletionState::Deleting);
                        }
                        DeleteCommand::Start(p)
                    },
                }
            },
        }
    }

    /// Records the outcome of a deletion worker for the entry with
    /// identifier `id`: `Deleting` resolves to `Deleted` on success and to
    /// `Error` on failure.
    pub fn finish_delete(&mut self, id: u64, success: bool)
        requires
            old(self).wf(),
        ensures
            final(self).wf(),
            final(self).entries@ == finish_delete_spec(old(self).entries@, id, success),
            final(self).loading == old(self).loading,
            final(self).next_id == old(self).next_id,
    {
        let ghost s = self.entries@;
        match self.find_index(id) {
            None => {},
            Some(i) => {
                proof {
                    lemma_idx_of_unique(s, self.next_id, id, i as int);
                }
                let st = self.entries[i].deletion_state;
                match st {
                    DeletionState::Deleting => {
                        let mut e = self.entries.remove(i);
                        e.deletion_state = if success {
                            DeletionState::Deleted
                        } else {
                            DeletionState::Error
                        };
                        let ghost ns = e.deletion_state;
                        self.entries.insert(i, e);
                        proof {
                            assert(self.entries@ =~= s.update(
                                i as int,
                                (DirEntry { deletion_state: ns, ..s[i as int] }),
                            ));
                            lemma_wf_update_state(s, self.next_id, i as int, ns);
                        }
                    },
                    _ => {},
                }
            },
        }
    }
}

/// With unique identifiers, any index holding `id` is the chosen one.
proof fn lemma_idx_of_unique(s: Seq<DirEntry>, next_id: u64, id: u64, i: int)
    requires
        wf_entries(s, next_id),
        0 <= i < s.len(),
        s[i].id == id,
    ensures
        has_id(s, id),
        idx_of(s, id) == i,
{
    assert(has_id(s, id));
    let j = idx_of(s, id);
    assert(0 <= j < s.len() && s[j].id == id);
    if i < j {
        assert(s[i].id != s[j].id);
    } else if j < i {
        assert(s[j].id != s[i].id);
    }
}

proof fn lemma_wf_remove(s: Seq<DirEntry>, next_id: u64, i: int)
    requires
        wf_entries(s, next_id),
        0 <= i < s.len(),
    ensures
        wf_entries(s.remove(i), next_id),
{
    let t = s.remove(i);
    assert forall|a: int, b: int| 0 <= a < b < t.len() implies t[a].id != t[b].id by {
        let a0 = if a < i { a } else { a + 1 };
        let b0 = if b < i { b } else { b + 1 };
        assert(t[a] == s[a0]);
        assert(t[b] == s[b0]);
    }
    assert forall|a: int| 0 <= a < t.len() implies #[trigger] t[a].id < next_id by {
        let a0 = if a < i { a } else { a + 1 };
        assert(t[a] == s[a0]);
    }
}

proof fn lemma_wf_update_state(s: Seq<DirEntry>, next_id: u64, i: int, st: DeletionState)
    requires
        wf_entries(s, next_id),
        0 <= i < s.len(),
    ensures
        wf_entries(s.update(i, (DirEntry { deletion_state: st, ..s[i] })), next_id),
{
}

/// Where the cursor lands after one step down over `len` rendered rows:
/// one past the current row, wrapping from the last row to the first; a
/// cursor that has gone stale (at or past `len`) also wraps to the first
/// row.  An empty table leaves the cursor alone.
pub open spec fn next_index_spec(i: nat, len: nat) -> nat {
    if len == 0 {
        i
    } else if i + 1 < len {
        i + 1
    } else {
        0
    }
}

/// Where the cursor lands after one step up: one before the current row,
/// wrapping from the first row to the last.  An empty table leaves the
/// cursor alone.
pub open spec fn prev_index_spec(i: nat, len: nat) -> nat {
    if len == 0 {
        i
    } else if i > 0 {
        (i - 1) as nat
    } else {
        (len - 1) as nat
    }
}

/// `k` repetitions of `next_index_spec` over a table of `len` rows.
pub open spec fn iter_next(i: nat, len: nat, k: nat) -> nat
    decreases k,
{
    if k == 0 {
        i
    } else {
        iter_next(next_index_spec(i, len), len, (k - 1) as nat)
    }
}

proof fn lemma_iter_next_shift(i: nat, len: nat, k: nat)
    requires
        i < len,
        k <= len,
    ensures
        iter_next(i, len, k) == if i + k < len {
            i + k
        } else {
            (i + k - len) as nat
        },
    decreases k,
{
    if k > 0 {
        if i + 1 < len {
            lemma_iter_next_shift(i + 1, len, (k - 1) as nat);
        } else {
            lemma_iter_next_shift(0, len, (k - 1) as nat);
        }
    }
}

/// Law: stepping the cursor down as many times as the table has rows
/// brings it back to where it started.
pub proof fn lemma_navigate_wraparound(i: nat, len: nat)
    requires
        i < len,
    ensures
        iter_next(i, len, len) == i,
{
    lemma_iter_next_shift(i, len, len);
}

/// Law: one step down followed by one step up (or the other way round)
/// leaves a valid cursor where it was.
pub proof fn lemma_navigate_inverse(i: nat, len: nat)
    requires
        i < len,
    ensures
        prev_index_spec(next_index_spec(i, len), len) == i,
        next_index_spec(prev_index_spec(i, len), len) == i,
{
}

/// The cursor, sort key and sort direction owned by the interactive layer,
/// together with the configured highlight colour.  The registry itself is
/// shared elsewhere; this state consumes one input event at a time.
pub struct App {
    pub index: usize,
    pub sorting: Sorting,
    pub sorting_inverted: bool,
    pub highlight_color: Rgb,
}

impl App {
    /// A fresh controller: cursor on the first row, sorted by name, not
    /// inverted.
    pub fn new(highlight_color: Rgb) -> (a: App)
        ensures
            a.index == 0,
            a.sorting == Sorting::Name,
            a.sorting_inverted == false,
            a.highlight_color == highlight_color,
    {
        App { index: 0, sorting: Sorting::Name, sorting_inverted: false, highlight_color }
    }

    /// Moves the cursor one row down, wrapping past the end.
    pub fn next(&mut self, entries_len: usize)
        ensures
            final(self).index == next_index_spec(old(self).index as nat, entries_len as nat),
            final(self).sorting == old(self).sorting,
            final(self).sorting_inverted == old(self).sorting_inverted,
            final(self).highlight_color == old(self).highlight_color,
    {
        if entries_len == 0 {
            return ;
        }
        if self.index < entries_len - 1 {
            self.index = self.index + 1;
        } else {
            self.index = 0;
        }
    }

    /// Moves the cursor one row up, wrapping past the beginning.
    pub fn previous(&mut self, entries_len: usize)
        ensures
            final(self).index == prev_index_spec(old(self).index as nat, entries_len as nat),
            final(self).sorting == old(self).sorting,
            final(self).sorting_inverted == old(self).sorting_inverted,
            final(self).highlight_color == old(self).highlight_color,
    {
        if entries_len == 0 {
            return ;
        }
        if self.index > 0 {
            self.index = self.index - 1;
        } else {
            self.index = entries_len - 1;
        }
    }

    /// Advances (or retreats) the sort key one step through its cycle.
    pub fn cycle_sort_key(&mut self, forward: bool)
        ensures
            final(self).sorting == if forward {
                cycle_next_spec(old(self).sorting)
            } else {
                cycle_prev_spec(old(self).sorting)
            },
            final(self).index == old(self).index,
            final(self).sorting_inverted == old(self).sorting_inverted,
            final(self).highlight_color == old(self).highlight_color,
    {
        self.sorting = if forward {
            self.sorting.cycle_next()
        } else {
            self.sorting.cycle_prev()
        };
    }

    /// Flips the sort direction.
    pub fn toggle_sort_inversion(&mut self)
        ensures
            final(self).sorting_inverted == !old(self).sorting_inverted,
            final(self).index == old(self).index,
            final(self).sorting == old(self).sorting,
            final(self).highlight_color == old(self).highlight_color,
    {
        self.sorting_inverted = !self.sorting_inverted;
    }
}

/// One discrete input event, as the terminal layer hands it over.
#[derive(Copy, Clone, Debug, PartialEq, Eq, Structural)]
pub enum KeyInput {
    Up,
    Down,
    Left,
    Right,
    Tab,
    BackTab,
    Enter,
    Char(char),
    Other,
}

/// What the event loop should do after one input event.
#[derive(Debug)]
pub enum AppAction {
    /// Redraw the table; nothing else to do.
    Redraw,
    /// Leave the event loop and restore the terminal.
    Quit,
    /// Spawn a worker that removes the subtree at the carried path, then
    /// reports the outcome through `Registry::finish_delete` under the
    /// carried identifier.
    StartDelete(u64, String),
}

/// The cursor clamped to the table: unchanged while on it, pulled to the
/// last row when the table shrank under it, and zero on an empty table.
pub open spec fn clamp_index_spec(i: nat, len: nat) -> nat {
    if len == 0 {
        0
    } else if i < len {
        i
    } else {
        (len - 1) as nat
    }
}

impl App {
    /// Consumes one input event: arrows navigate, left/right cycle the sort
    /// key, tab inverts the sort, enter requests deletion (or dismissal) of
    /// the entry at the selected visual position, `q` quits.  The visual
    /// position is mapped to the entry's stable identifier before the
    /// registry is touched, since sort order is a presentation concern
    /// only.
    pub fn handle_key(&mut self, key: KeyInput, reg: &mut Registry) -> (act: AppAction)
        requires
            old(reg).wf(),
        ensures
            final(reg).wf(),
            final(reg).loading == old(reg).loading,
            final(reg).next_id == old(reg).next_id,
            final(self).highlight_color == old(self).highlight_color,
            (match key {
                KeyInput::Down => *final(self) == (App {
                    index: next_index_spec(
                        old(self).index as nat,
                        old(reg).entries@.len(),
                    ) as usize,
                    ..*old(self)
                }) && final(reg).entries@ == old(reg).entries@ && act is Redraw,
                KeyInput::Up => *final(self) == (App {
                    index: prev_index_spec(
                        old(self).index as nat,
                        old(reg).entries@.len(),
                    ) as usize,
                    ..*old(self)
                }) && final(reg).entries@ == old(reg).entries@ && act is Redraw,
                KeyInput::Right => *final(self) == (App {
                    sorting: cycle_next_spec(old(self).sorting),
                    ..*old(self)
                }) && final(reg).entries@ == old(reg).entries@ && act is Redraw,
                KeyInput::Left => *final(self) == (App {
                    sorting: cycle_prev_spec(old(self).sorting),
                    ..*old(self)
                }) && final(reg).entries@ == old(reg).entries@ && act is Redraw,
                KeyInput::Tab => *final(self) == (App {
                    sorting_inverted: !old(self).sorting_inverted,
                    ..*old(self)
                }) && final(reg).entries@ == old(reg).entries@ && act is Redraw,
                KeyInput::BackTab => *final(self) == (App {
                    sorting_inverted: !old(self).sorting_inverted,
                    ..*old(self)
                }) && final(reg).entries@ == old(reg).entries@ && act is Redraw,
                KeyInput::Char(c) => *final(self) == *old(self) && final(reg).entries@ == old(
                    reg,
                ).entries@ && if c == 'q' {
                    act is Quit
                } else {
                    act is Redraw
                },
                KeyInput::Other => *final(self) == *old(self) && final(reg).entries@ == old(
                    reg,
                ).entries@ && act is Redraw,
                KeyInput::Enter => ({
                    let s0 = old(reg).entries@;
                    let i0 = old(self).index as nat;
                    &&& final(self).sorting == old(self).sorting
                    &&& final(self).sorting_inverted == old(self).sorting_inverted
                    &&& if i0 >= s0.len() {
                        final(reg).entries@ == s0 && final(self).index == old(self).index && act
                            is Redraw
                    } else {
                        let id = rendered_models(
                            *old(reg),
                            old(self).sorting,
                            old(self).sorting_inverted,
                        )[i0 as int].id;
                        &&& final(reg).entries@ == request_delete_spec(s0, id)
                        &&& final(self).index == clamp_index_spec(
                            i0,
                            final(reg).entries@.len(),
                        )
                        &&& (match act {
                            AppAction::StartDelete(aid, p) => aid == id && has_id(s0, id) && (s0[
                                idx_of(s0, id)
                            ].deletion_state == DeletionState::Ready || s0[
                                idx_of(s0, id)
                            ].deletion_state == DeletionState::Error) && p@ == s0[
                                idx_of(s0, id)
                            ].path@,
                            AppAction::Redraw => !has_id(s0, id) || s0[
                                idx_of(s0, id)
                            ].deletion_state == DeletionState::Deleting || s0[
                                idx_of(s0, id)
                            ].deletion_state == DeletionState::Deleted,
                            AppAction::Quit => false,
                        })
                    }
                }),
            }),
    {
        match key {
            KeyInput::Down => {
                let len = reg.len();
                self.next(len);
                AppAction::Redraw
            },
            KeyInput::Up => {
                let len = reg.len();
                self.previous(len);
                AppAction::Redraw
            },
            KeyInput::Right => {
                self.cycle_sort_key(true);
                AppAction::Redraw
            },
            KeyInput::Left => {
                self.cycle_sort_key(false);
                AppAction::Redraw
            },
            KeyInput::Tab => {
                self.toggle_sort_inversion();
                AppAction::Redraw
            },
            KeyInput::BackTab => {
                self.toggle_sort_inversion();
                AppAction::Redraw
            },
            KeyInput::Char(c) => {
                if c == 'q' {
                    AppAction::Quit
                } else {
                    AppAction::Redraw
                }
            },
            KeyInput::Other => AppAction::Redraw,
            KeyInput::Enter => {
                match id_at_visual(reg, self.sorting, self.sorting_inverted, self.index) {
                    None => AppAction::Redraw,
                    Some(id) => {
                        let cmd = reg.request_delete(id);
                        let new_len = reg.len();
                        if new_len == 0 {
                            self.index = 0;
                        } else if self.index >= new_len {
                            self.index = new_len - 1;
                        }
                        match cmd {
                            DeleteCommand::Start(p) => AppAction::StartDelete(id, p),
                            DeleteCommand::Dismissed => AppAction::Redraw,
                            DeleteCommand::Ignored => AppAction::Redraw,
                        }
                    },
                }
            },
        }
    }
}

/// Law: the deletion state machine never re-enters `Ready`.  Any entry
/// observable as `Ready` after a delete request already carried `Ready`,
/// under the same identifier, before the request: leaving `Ready` is
/// possible only by way of `Deleting`.
pub proof fn lemma_request_delete_no_new_ready(s: Seq<DirEntry>, next_id: u64, id: u64, k: int)
    requires
        wf_entries(s, next_id),
        0 <= k < request_delete_spec(s, id).len(),
        request_delete_spec(s, id)[k].deletion_state == DeletionState::Ready,
    ensures
        exists|j: int|
            0 <= j < s.len() && s[j].id == request_delete_spec(s, id)[k].id && s[j].deletion_state
                == DeletionState::Ready,
{
    let t = request_delete_spec(s, id);
    if has_id(s, id) {
        let i = idx_of(s, id);
        match s[i].deletion_state {
            DeletionState::Deleted => {
                let k0 = if k < i { k } else { k + 1 };
                assert(t[k] == s[k0]);
            },
            DeletionState::Deleting => {
                assert(t[k] == s[k]);
            },
            _ => {
                if k != i {
                    assert(t[k] == s[k]);
                } else {
                    assert(t[k].deletion_state == DeletionState::Deleting);
                }
            },
        }
    } else {
        assert(t[k] == s[k]);
    }
}

/// Law: a worker's completion report never re-enters `Ready` either: any
/// entry observable as `Ready` after `finish_delete` already carried
/// `Ready`, under the same identifier, before the report.
pub proof fn lemma_finish_delete_no_new_ready(
    s: Seq<DirEntry>,
    next_id: u64,
    id: u64,
    success: bool,
    k: int,
)
    requires
        wf_entries(s, next_id),
        0 <= k < finish_delete_spec(s, id, success).len(),
        finish_delete_spec(s, id, success)[k].deletion_state == DeletionState::Ready,
    ensures
        exists|j: int|
            0 <= j < s.len() && s[j].id == finish_delete_spec(s, id, success)[k].id && s[
                j
            ].deletion_state == DeletionState::Ready,
{
    let t = finish_delete_spec(s, id, success);
    if has_id(s, id) && s[idx_of(s, id)].deletion_state == DeletionState::Deleting {
        let i = idx_of(s, id);
        if k != i {
            assert(t[k] == s[k]);
        }
    } else {
        assert(t[k] == s[k]);
    }
}

} // verus!

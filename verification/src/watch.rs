//! Coalescing bursts of file changes, so that each changed file is reloaded once.
use crate::text::same_text;
use vstd::prelude::*;

verus! {

/// What happened to a file.
#[derive(Clone, Copy, Debug, PartialEq, Eq, Structural)]
pub enum FileChange {
    Created,
    Modified,
    Removed,
    /// It was read, or anything else that leaves its content.
    Other,
}

/// The change can have changed the content of a file.
pub open spec fn touches(change: FileChange) -> bool {
    change != FileChange::Other
}

/// A created, a modified and a removed file are reloaded, a file that was only read is
/// not.
pub proof fn law_changes_that_count()
    ensures
        touches(FileChange::Created),
        touches(FileChange::Modified),
        touches(FileChange::Removed),
        !touches(FileChange::Other),
{
}

/// Whether a change can have changed the content of a file.
pub fn changes_content(change: FileChange) -> (r: bool)
    ensures
        r == touches(change),
{
    match change {
        FileChange::Created | FileChange::Modified | FileChange::Removed => true,
        FileChange::Other => false,
    }
}

/// How long changes are collected, in milliseconds.
pub const DEBOUNCE_MS: u64 = 200;

/// The changed files that have not been reloaded.
pub struct Debounce {
    pending: Vec<String>,
    /// When they are reloaded, in milliseconds on the clock of the caller.
    due: u64,
}

#[verifier::ext_equal]
pub struct DebounceView {
    /// The changed files in the order of their first change, each once.
    pub pending: Seq<Seq<char>>,
    /// When they are reloaded, if there are any.
    pub due: Option<u64>,
}

impl DeepView for Debounce {
    type V = DebounceView;

    closed spec fn deep_view(&self) -> DebounceView {
        DebounceView {
            pending: self.pending.deep_view(),
            due: if self.pending@.len() == 0 {
                None
            } else {
                Some(self.due)
            },
        }
    }
}

/// The end of the time in which changes are collected that begins at `now`.
pub open spec fn window_end(now: u64) -> u64 {
    if now > u64::MAX - DEBOUNCE_MS {
        u64::MAX
    } else {
        (now + DEBOUNCE_MS) as u64
    }
}

/// After a change of a file: the first one begins the time in which changes are
/// collected, and each file is collected once.
pub open spec fn after_change(d: DebounceView, path: Seq<char>, now: u64) -> DebounceView {
    DebounceView {
        pending: if d.pending.contains(path) {
            d.pending
        } else {
            d.pending.push(path)
        },
        due: match d.due {
            Some(t) => Some(t),
            None => Some(window_end(now)),
        },
    }
}

/// Nothing is pending.
pub open spec fn idle() -> DebounceView {
    DebounceView { pending: Seq::empty(), due: None }
}

/// The files that are reloaded at `now`.
pub open spec fn batch_at(d: DebounceView, now: u64) -> Seq<Seq<char>> {
    match d.due {
        Some(t) => if t <= now {
            d.pending
        } else {
            Seq::empty()
        },
        None => Seq::empty(),
    }
}

/// After the files that are reloaded at `now` have been taken.
pub open spec fn after_batch(d: DebounceView, now: u64) -> DebounceView {
    match d.due {
        Some(t) => if t <= now {
            idle()
        } else {
            d
        },
        None => d,
    }
}

impl Debounce {
    /// Nothing is pending.
    pub fn new() -> (r: Self)
        ensures
            r.deep_view() == idle(),
    {
        let r = Debounce { pending: Vec::new(), due: 0 };
        assert(r.pending.deep_view() =~= Seq::empty());
        r
    }

    /// Notes a change of a file at `now`.
    pub fn changed(&mut self, path: &str, now: u64)
        ensures
            final(self).deep_view() == after_change(old(self).deep_view(), path@, now),
    {
        let ghost all = self.pending.deep_view();
        if self.pending.len() == 0 {
            self.due = if now > u64::MAX - DEBOUNCE_MS {
                u64::MAX
            } else {
                now + DEBOUNCE_MS
            };
        }
        let mut known: bool = false;
        let mut i: usize = 0;
        while i < self.pending.len()
            invariant
                i <= self.pending@.len(),
                all == self.pending.deep_view(),
                known == (exists|j: int| 0 <= j < i && #[trigger] all[j] == path@),
            decreases self.pending@.len() - i,
        {
            assert(all[i as int] == self.pending@[i as int]@);
            if same_text(self.pending[i].as_str(), path) {
                known = true;
            }
            i += 1;
        }
        assert(known == all.contains(path@));
        if !known {
            self.pending.push(path.to_owned());
            assert(self.pending.deep_view() =~= all.push(path@));
        }
    }

    /// How long to wait from `now` for the next reload, if one is due.
    pub fn wait_ms(&self, now: u64) -> (r: Option<u64>)
        ensures
            r == wait_from(self.deep_view(), now),
    {
        if self.pending.len() == 0 {
            None
        } else if self.due <= now {
            Some(0)
        } else {
            Some(self.due - now)
        }
    }

    fn take_all(&mut self) -> (r: Vec<String>)
        ensures
            r.deep_view() == old(self).deep_view().pending,
            final(self).deep_view() == idle(),
    {
        let mut out: Vec<String> = Vec::new();
        std::mem::swap(&mut out, &mut self.pending);
        assert(self.pending.deep_view() =~= Seq::empty());
        out
    }

    /// Takes the files that are reloaded at `now`.
    pub fn take_due(&mut self, now: u64) -> (r: Vec<String>)
        ensures
            r.deep_view() == batch_at(old(self).deep_view(), now),
            final(self).deep_view() == after_batch(old(self).deep_view(), now),
    {
        if self.pending.len() > 0 && self.due <= now {
            self.take_all()
        } else {
            let none: Vec<String> = Vec::new();
            assert(none.deep_view() =~= Seq::empty());
            none
        }
    }

    /// Takes all files, when no more changes can come.
    pub fn close(&mut self) -> (r: Vec<String>)
        ensures
            closes(old(self).deep_view(), final(self).deep_view(), r.deep_view()),
    {
        self.take_all()
    }
}

/// Each pending file is pending once, and a reload is due exactly if a file is pending.
pub open spec fn well_formed(d: DebounceView) -> bool {
    d.pending.no_duplicates() && (d.due is None) == (d.pending.len() == 0)
}

/// Changes and reloads keep each pending file once.
pub proof fn law_each_file_once(d: DebounceView, path: Seq<char>, now: u64)
    requires
        well_formed(d),
    ensures
        well_formed(idle()),
        well_formed(after_change(d, path, now)),
        well_formed(after_batch(d, now)),
{
}

/// A changed file is reloaded: it is in the next batch, whatever else changes before.
pub proof fn law_changes_are_reloaded(
    d: DebounceView,
    path: Seq<char>,
    other: Seq<char>,
    now: u64,
    later: u64,
)
    requires
        well_formed(d),
    ensures
        after_change(d, path, now).pending.contains(path),
        d.pending.contains(path) ==> after_change(d, other, now).pending.contains(path),
        d.pending.contains(path) && d.due->0 <= later ==> batch_at(d, later).contains(path),
{
    if !d.pending.contains(path) {
        assert(d.pending.push(path)[d.pending.len() as int] == path);
    }
    if d.pending.contains(path) && !d.pending.contains(other) {
        let i = d.pending.index_of(path);
        assert(d.pending.push(other)[i] == path);
    }
}

/// Changes are collected for the whole time after the first one, and for no longer
/// than that, whatever else changes meanwhile.
pub proof fn law_window_is_fixed(path: Seq<char>, now: u64, t: u64)
    requires
        now <= u64::MAX - DEBOUNCE_MS,
    ensures
        t < now + DEBOUNCE_MS ==> batch_at(after_change(idle(), path, now), t).len() == 0,
        t >= now + DEBOUNCE_MS ==> batch_at(after_change(idle(), path, now), t) == seq![path],
        forall|e: DebounceView, p: Seq<char>, u: u64|
            e.due is Some ==> (#[trigger] after_change(e, p, u)).due == e.due,
{
    assert(idle().pending.push(path) =~= seq![path]);
}

/// A file is reloaded 200 milliseconds after its first change, and not before.
pub proof fn law_reload_waits(path: Seq<char>, now: u64, t: u64)
    requires
        now + 200 <= u64::MAX,
    ensures
        t < now + 200 ==> batch_at(after_change(idle(), path, now), t).len() == 0,
        t >= now + 200 ==> batch_at(after_change(idle(), path, now), t) == seq![path],
{
    assert(Seq::<Seq<char>>::empty().push(path) =~= seq![path]);
}

/// A reload takes all pending files at once, in the order of their first change, and
/// leaves none; before it is due it takes none and leaves them all.
pub proof fn law_batch_takes_all(d: DebounceView, now: u64)
    requires
        d.due is Some,
    ensures
        d.due->0 <= now ==> batch_at(d, now) == d.pending && after_batch(d, now).pending.len() == 0
            && after_batch(d, now).due is None,
        d.due->0 > now ==> batch_at(d, now).len() == 0 && after_batch(d, now) == d,
{
}

/// A change adds its file after those that are pending, unless it is among them; these
/// keep their order.
pub proof fn law_change_is_collected(d: DebounceView, path: Seq<char>, now: u64)
    ensures
        d.pending.contains(path) ==> after_change(d, path, now).pending == d.pending,
        !d.pending.contains(path) ==> after_change(d, path, now).pending == d.pending.push(path),
{
}

/// How long to wait from `now` for the next reload, if one is due.
pub open spec fn wait_from(d: DebounceView, now: u64) -> Option<u64> {
    match d.due {
        Some(t) => Some(
            if t <= now {
                0u64
            } else {
                (t - now) as u64
            },
        ),
        None => None,
    }
}

/// Whoever waits as long as is told finds the reload due, and no sooner; without a
/// pending file there is nothing to wait for.
pub proof fn law_wait_ends_when_due(d: DebounceView, now: u64)
    requires
        well_formed(d),
    ensures
        wait_from(d, now) is None <==> d.pending.len() == 0,
        wait_from(d, now) is Some ==> now + wait_from(d, now)->0 <= u64::MAX && batch_at(
            d,
            (now + wait_from(d, now)->0) as u64,
        ) == d.pending,
        wait_from(d, now) is Some && wait_from(d, now)->0 > 0 ==> batch_at(
            d,
            (now + wait_from(d, now)->0 - 1) as u64,
        ).len() == 0,
{
}

/// The end of the changes, with this outcome: all pending files, and none left.
pub open spec fn closes(before: DebounceView, after: DebounceView, r: Seq<Seq<char>>) -> bool {
    r == before.pending && after == idle()
}

/// At the end every pending file is still reloaded, due or not.
pub proof fn law_end_loses_nothing(
    before: DebounceView,
    after: DebounceView,
    r: Seq<Seq<char>>,
    path: Seq<char>,
)
    requires
        closes(before, after, r),
        before.pending.contains(path),
    ensures
        r.contains(path),
        r == before.pending,
        after.pending.len() == 0,
        after.due is None,
{
}

} // verus!

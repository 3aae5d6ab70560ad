use vstd::prelude::*;
use vstd::multiset::Multiset;
use vstd::seq_lib::lemma_multiset_commutative;

verus! {

/// What the walk observes of the directory listing it is reading.
pub enum WalkEvent<P> {
    /// The listing's next entry, and whether that entry is a directory.
    Entry { path: P, is_dir: bool },
    /// The listing has no entries left.
    Exhausted,
}

/// What the walk asks its driver to do next.
#[derive(Debug)]
pub enum WalkAction<P> {
    /// Hand this path to the consumer.
    Yield(P),
    /// Read the next entry of the current listing.
    Continue,
    /// Start listing this directory, replacing the current listing.
    Open(P),
    /// The walk is over, for good.
    Done,
}

/// One decision of the walk: from the pending directories, whether the walk
/// is over, and what was observed, to the new pending directories, the new
/// finished flag, and the action.
pub open spec fn step_spec<P>(stack: Seq<P>, finished: bool, ev: WalkEvent<P>) -> (Seq<P>, bool, WalkAction<P>) {
    if finished {
        (stack, true, WalkAction::Done)
    } else {
        match ev {
            WalkEvent::Entry { path, is_dir } => if is_dir {
                (stack.push(path), false, WalkAction::Continue)
            } else {
                (stack, false, WalkAction::Yield(path))
            },
            WalkEvent::Exhausted => if stack.len() > 0 {
                (stack.drop_last(), false, WalkAction::Open(stack.last()))
            } else {
                (stack, true, WalkAction::Done)
            },
        }
    }
}

/// The decisions of a depth-first walk over a directory tree. The driver keeps
/// one directory listing open at a time; the walker keeps the directories that
/// were seen but not yet listed.
pub struct Walker<P> {
    stack: Vec<P>,
    finished: bool,
}

impl<P> Walker<P> {
    /// Directories seen and not yet listed, the last one listed first.
    pub closed spec fn pending(&self) -> Seq<P> {
        self.stack@
    }

    /// Whether the walk has signalled its end.
    pub closed spec fn is_finished(&self) -> bool {
        self.finished
    }

    /// A walk that is reading the root's listing and has nothing pending.
    pub fn new() -> (r: Walker<P>)
        ensures
            r.pending() == Seq::<P>::empty(),
            !r.is_finished(),
    {
        Walker { stack: Vec::new(), finished: false }
    }

    /// Takes what was observed of the current listing and decides the next action.
    /// A directory is kept for later and never yielded; anything else is yielded;
    /// an exhausted listing is replaced by the last pending directory, and once
    /// none is left the walk ends and stays ended.
    pub fn step(&mut self, ev: WalkEvent<P>) -> (r: WalkAction<P>)
        ensures
            (final(self).pending(), final(self).is_finished(), r)
                == step_spec(old(self).pending(), old(self).is_finished(), ev),
    {
        if self.finished {
            return WalkAction::Done;
        }
        match ev {
            WalkEvent::Entry { path, is_dir } => {
                if is_dir {
                    self.stack.push(path);
                    WalkAction::Continue
                } else {
                    WalkAction::Yield(path)
                }
            },
            WalkEvent::Exhausted => {
                match self.stack.pop() {
                    Some(dir) => WalkAction::Open(dir),
                    None => {
                        self.finished = true;
                        WalkAction::Done
                    },
                }
            },
        }
    }
}

/// A directory tree as a model: an entry is a file (anything that is not a
/// directory) or a directory with its listing.
pub enum FsEntry<P> {
    File(P),
    Dir(P, Seq<FsEntry<P>>),
}

impl<P> FsEntry<P> {
    pub open spec fn path(self) -> P {
        match self {
            FsEntry::File(p) => p,
            FsEntry::Dir(p, _) => p,
        }
    }

    pub open spec fn listing(self) -> Seq<FsEntry<P>> {
        match self {
            FsEntry::File(_) => Seq::empty(),
            FsEntry::Dir(_, ch) => ch,
        }
    }
}

/// The paths of the non-directory entries reachable from a listing.
pub open spec fn files_in<P>(s: Seq<FsEntry<P>>) -> Multiset<P>
    decreases s,
{
    if s.len() == 0 {
        Multiset::empty()
    } else {
        let rest = files_in(s.subrange(1, s.len() as int));
        match s[0] {
            FsEntry::File(p) => rest.insert(p),
            FsEntry::Dir(_, ch) => files_in(ch).add(rest),
        }
    }
}

/// The number of entries reachable from a listing, directories included.
pub open spec fn entry_count<P>(s: Seq<FsEntry<P>>) -> nat
    decreases s,
{
    if s.len() == 0 {
        0
    } else {
        let rest = entry_count(s.subrange(1, s.len() as int));
        match s[0] {
            FsEntry::File(_) => rest + 1,
            FsEntry::Dir(_, ch) => entry_count(ch) + rest + 1,
        }
    }
}

/// What the walker observes when the current listing's remaining entries are `cursor`.
pub open spec fn event_of<P>(cursor: Seq<FsEntry<P>>) -> WalkEvent<P> {
    if cursor.len() == 0 {
        WalkEvent::Exhausted
    } else {
        WalkEvent::Entry { path: cursor[0].path(), is_dir: cursor[0] is Dir }
    }
}

pub open spec fn paths_of<P>(s: Seq<FsEntry<P>>) -> Seq<P> {
    s.map_values(|e: FsEntry<P>| e.path())
}

proof fn lemma_concat<P>(a: Seq<FsEntry<P>>, b: Seq<FsEntry<P>>)
    ensures
        files_in(a + b) == files_in(a).add(files_in(b)),
        entry_count(a + b) == entry_count(a) + entry_count(b),
    decreases a.len(),
{
    if a.len() == 0 {
        assert(a + b =~= b);
    } else {
        let t = a.subrange(1, a.len() as int);
        lemma_concat(t, b);
        assert((a + b).subrange(1, (a + b).len() as int) =~= t + b);
        assert((a + b)[0] == a[0]);
    }
}

proof fn lemma_single<P>(e: FsEntry<P>)
    ensures
        entry_count(seq![e]) == 1 + entry_count(e.listing()),
        files_in(seq![e]) == (match e {
            FsEntry::File(p) => Multiset::empty().insert(p),
            FsEntry::Dir(_, ch) => files_in(ch),
        }),
{
    let one = seq![e];
    assert(one.subrange(1, 1) =~= Seq::<FsEntry<P>>::empty());
    assert(one[0] == e);
    assert(files_in(one.subrange(1, 1)) == Multiset::<P>::empty());
    assert(entry_count(one.subrange(1, 1)) == 0);
    match e {
        FsEntry::File(p) => {},
        FsEntry::Dir(_, ch) => {
            assert(files_in(ch).add(Multiset::empty()) =~= files_in(ch));
        },
    }
}

proof fn lemma_walk_measure<P>(cursor: Seq<FsEntry<P>>, stack: Seq<FsEntry<P>>)
    ensures
        cursor.len() > 0 && cursor[0] is File ==> entry_count(cursor.drop_first()) + entry_count(stack)
            < entry_count(cursor) + entry_count(stack),
        cursor.len() > 0 && cursor[0] is Dir ==> entry_count(cursor.drop_first()) + entry_count(stack.push(cursor[0]))
            == entry_count(cursor) + entry_count(stack),
        cursor.len() == 0 && stack.len() > 0 ==> entry_count(stack.last().listing()) + entry_count(stack.drop_last())
            < entry_count(cursor) + entry_count(stack),
{
    if cursor.len() > 0 {
        assert(cursor.drop_first() =~= cursor.subrange(1, cursor.len() as int));
        lemma_concat(stack, seq![cursor[0]]);
        lemma_single(cursor[0]);
        assert(stack.push(cursor[0]) =~= stack + seq![cursor[0]]);
    }
    if stack.len() > 0 {
        let l = seq![stack.last()];
        lemma_concat(stack.drop_last(), l);
        assert(stack =~= stack.drop_last() + l);
        lemma_single(stack.last());
    }
}

#[via_fn]
proof fn walk_decreases<P>(cursor: Seq<FsEntry<P>>, stack: Seq<FsEntry<P>>) {
    lemma_walk_measure(cursor, stack);
}

/// The paths that the walker yields, in order, when the current listing's
/// remaining entries are `cursor` and the directories `stack` are pending.
pub open spec fn walk<P>(cursor: Seq<FsEntry<P>>, stack: Seq<FsEntry<P>>) -> Seq<P>
    decreases entry_count(cursor) + entry_count(stack), cursor.len(),
    via walk_decreases::<P>
{
    let act = step_spec(paths_of(stack), false, event_of(cursor)).2;
    match act {
        WalkAction::Yield(p) => seq![p] + walk(cursor.drop_first(), stack),
        WalkAction::Continue => walk(cursor.drop_first(), stack.push(cursor[0])),
        WalkAction::Open(_) => walk(stack.last().listing(), stack.drop_last()),
        WalkAction::Done => Seq::empty(),
    }
}

proof fn lemma_walk_yields<P>(cursor: Seq<FsEntry<P>>, stack: Seq<FsEntry<P>>)
    requires
        forall|i: int| 0 <= i < stack.len() ==> #[trigger] stack[i] is Dir,
    ensures
        walk(cursor, stack).to_multiset() =~= files_in(cursor).add(files_in(stack)),
    decreases entry_count(cursor) + entry_count(stack), cursor.len(),
{
    lemma_walk_measure(cursor, stack);
    if cursor.len() > 0 {
        let tail = cursor.drop_first();
        assert(tail =~= cursor.subrange(1, cursor.len() as int));
        match cursor[0] {
            FsEntry::File(p) => {
                lemma_walk_yields(tail, stack);
                let rest = walk(tail, stack);
                assert(walk(cursor, stack) == seq![p] + rest);
                lemma_multiset_commutative(seq![p], rest);
                assert(seq![p].to_multiset() =~= Multiset::empty().insert(p)) by {
                    assert(seq![p] =~= Seq::<P>::empty().push(p));
                    vstd::seq_lib::to_multiset_build(Seq::<P>::empty(), p);
                    Seq::<P>::empty().to_multiset_ensures();
                }
            },
            FsEntry::Dir(_, ch) => {
                let st = stack.push(cursor[0]);
                assert forall|i: int| 0 <= i < st.len() implies #[trigger] st[i] is Dir by {
                    if i < stack.len() {
                        assert(st[i] == stack[i]);
                    }
                }
                lemma_walk_yields(tail, st);
                assert(st =~= stack + seq![cursor[0]]);
                lemma_concat(stack, seq![cursor[0]]);
                lemma_single(cursor[0]);
            },
        }
    } else if stack.len() > 0 {
        let last = stack.last();
        let below = stack.drop_last();
        assert forall|i: int| 0 <= i < below.len() implies #[trigger] below[i] is Dir by {
            assert(below[i] == stack[i]);
        }
        lemma_walk_yields(last.listing(), below);
        assert(stack =~= below + seq![last]);
        lemma_concat(below, seq![last]);
        lemma_single(last);
        assert(files_in(cursor) == Multiset::<P>::empty());
    } else {
        assert(walk(cursor, stack) == Seq::<P>::empty());
        Seq::<P>::empty().to_multiset_ensures();
    }
}

/// A walk started on a root directory's listing, with nothing pending, yields
/// every non-directory entry reachable from the root, each as often as it
/// stands in the tree, and nothing else: no directory and no path twice.
pub proof fn lemma_walk_complete<P>(root: Seq<FsEntry<P>>)
    ensures
        walk(root, Seq::empty()).to_multiset() == files_in(root),
{
    lemma_walk_yields(root, Seq::empty());
    assert(files_in(Seq::<FsEntry<P>>::empty()) == Multiset::<P>::empty());
}

} // verus!

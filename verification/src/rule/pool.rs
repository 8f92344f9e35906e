//! Expressions compiled the first time they are needed.
//!
//! A large installation has a few hundred thousand rules that need an
//! expression, and a query reaches a handful of them. So the source is kept
//! and the expression is built on first use, and only so many are kept built:
//! past the ceiling the oldest goes, unless it was used since it was last
//! considered.

use regex::Regex;
use std::collections::VecDeque;
use vstd::prelude::*;

verus! {

/// How many compiled expressions are kept at once.
pub const MAX_COMPILED: usize = 2000;

/// The point past which a second chance is no longer offered.
pub const HARD_CEILING: usize = 2250;

/// A compiled expression of the regex crate.
#[verifier::external_type_specification]
#[verifier::external_body]
pub struct ExRegex(Regex);

/// The message with which `Regex::new` refuses a source, or nothing where it
/// compiles.
pub uninterp spec fn refusal(src: Seq<char>) -> Option<Seq<char>>;

/// The source that an expression was compiled from, as `Regex::as_str` gives
/// it back.
pub uninterp spec fn source_of(re: Regex) -> Seq<char>;

/// Whether the expression compiled from `src` matches anywhere in `hay`, as
/// `Regex::is_match` says.
pub uninterp spec fn found_in(src: Seq<char>, hay: Seq<char>) -> bool;

/// `Regex::new`: compiles `src`, or says why not. The expression is the one
/// of that source.
#[verifier::external_body]
pub(crate) fn compile(src: &str) -> (r: Result<Regex, String>)
    ensures
        match r {
            Ok(re) => refusal(src@) is None && source_of(re) == src@,
            Err(m) => refusal(src@) == Some(m@),
        },
{
    Regex::new(src).map_err(|e| e.to_string())
}

/// `Regex::is_match`: what it says is settled by the source and the text.
#[verifier::external_body]
fn is_match(re: &Regex, hay: &str) -> (r: bool)
    ensures
        r == found_in(source_of(*re), hay@),
{
    re.is_match(hay)
}

/// Whether the expression `src` compiles and matches anywhere in `hay`.
pub open spec fn expr_fits(src: Seq<char>, hay: Seq<char>) -> bool {
    refusal(src) is None && found_in(src, hay)
}

/// What a [`LazyRegex`] is holding.
pub enum Slot {
    /// Never built, or built and since dropped to stay under the ceiling.
    Empty,
    /// Refused by the regex crate: it can never match, and that is never
    /// forgotten.
    Failed,
    /// Built and being kept.
    Built(Regex),
}

/// A rule's expression, compiled the first time it is needed.
pub struct LazyRegex {
    /// The expression's source.
    src: String,
    /// The compiled form, while it is being kept.
    slot: Slot,
    /// Whether anything has matched against it since it was last considered
    /// for eviction.
    used: bool,
    /// Whether it is kept whatever happens.
    pinned: bool,
}

impl LazyRegex {
    /// Whether what is held agrees with the source.
    pub closed spec fn wf(&self) -> bool {
        match self.slot {
            Slot::Empty => !self.pinned,
            Slot::Failed => !self.pinned && refusal(self.src@) is Some,
            Slot::Built(re) => refusal(self.src@) is None && source_of(re) == self.src@,
        }
    }

    /// The expression's source.
    pub closed spec fn text(&self) -> Seq<char> {
        self.src@
    }

    /// Whether the expression is built and being kept.
    pub closed spec fn built(&self) -> bool {
        self.slot is Built
    }

    /// Whether it was used since it was last considered.
    pub closed spec fn marked(&self) -> bool {
        self.used
    }

    /// Whether it is kept whatever happens.
    pub closed spec fn kept(&self) -> bool {
        self.pinned
    }

    /// Holds an expression without compiling it.
    pub fn new(src: String) -> (r: Self)
        ensures
            r.wf(),
            r.text() == src@,
            !r.built(),
            !r.kept(),
            !r.marked(),
    {
        LazyRegex { src, slot: Slot::Empty, used: false, pinned: false }
    }

    /// Holds an already-compiled expression, for a form that is written by
    /// hand and therefore compiled at load. It is not subject to eviction.
    pub(crate) fn compiled(src: String, re: Regex) -> (r: Self)
        requires
            refusal(src@) is None,
            source_of(re) == src@,
        ensures
            r.wf(),
            r.text() == src@,
            r.built(),
            r.kept(),
            !r.marked(),
    {
        LazyRegex { src, slot: Slot::Built(re), used: false, pinned: true }
    }

    /// The expression source.
    pub fn source(&self) -> (r: &str)
        ensures
            r@ == self.text(),
    {
        self.src.as_str()
    }

    /// Whether the expression is built and being kept.
    pub fn is_built(&self) -> (r: bool)
        ensures
            r == self.built(),
    {
        match self.slot {
            Slot::Built(_) => true,
            _ => false,
        }
    }
}

/// The expressions of an engine, and which of them are built.
pub struct Pool {
    /// Every expression, by number.
    exprs: Vec<LazyRegex>,
    /// The numbers of those built on demand, oldest first.
    queue: VecDeque<usize>,
}

/// What one pass over the oldest comes to, with `passes` of them left to
/// consider: the queue, and which expressions are marked as used.
///
/// While more than [`MAX_COMPILED`] are built, the oldest is considered. One
/// that was used goes to the back of the queue with its mark cleared, unless
/// more than [`HARD_CEILING`] are built; any other is dropped.
pub open spec fn second_chance(queue: Seq<usize>, used: Set<usize>, passes: int) -> (Seq<usize>, Set<usize>)
    decreases passes,
{
    if passes <= 0 || queue.len() <= MAX_COMPILED {
        (queue, used)
    } else {
        let old = queue[0];
        let rest = queue.drop_first();
        if rest.len() < HARD_CEILING && used.contains(old) {
            second_chance(rest.push(old), used.remove(old), passes - 1)
        } else {
            second_chance(rest, used, passes - 1)
        }
    }
}

/// However many were used, a pass that begins with one expression too many
/// ends within the hard ceiling, and with no more than it began with.
pub proof fn law_ceiling(queue: Seq<usize>, used: Set<usize>)
    requires
        queue.len() <= HARD_CEILING + 1,
    ensures
        second_chance(queue, used, queue.len() as int).0.len() <= HARD_CEILING,
        second_chance(queue, used, queue.len() as int).0.len() <= queue.len(),
{
    lemma_pass_shrinks(queue, used, queue.len() as int);
}

proof fn lemma_pass_shrinks(queue: Seq<usize>, used: Set<usize>, passes: int)
    requires
        queue.len() <= HARD_CEILING + 1,
        passes <= 0 ==> queue.len() <= HARD_CEILING,
    ensures
        second_chance(queue, used, passes).0.len() <= HARD_CEILING,
        second_chance(queue, used, passes).0.len() <= queue.len(),
    decreases passes,
{
    if passes > 0 && queue.len() > MAX_COMPILED {
        let old = queue[0];
        let rest = queue.drop_first();
        if rest.len() < HARD_CEILING && used.contains(old) {
            lemma_pass_shrinks(rest.push(old), used.remove(old), passes - 1);
        } else {
            lemma_pass_shrinks(rest, used, passes - 1);
        }
    }
}

/// Where some expression was not used since it was last considered, a pass
/// that begins with one expression too many ends with no more than
/// [`MAX_COMPILED`].
pub proof fn law_kept_at_once(queue: Seq<usize>, used: Set<usize>, at: int)
    requires
        queue.len() <= MAX_COMPILED + 1,
        0 <= at < queue.len(),
        !used.contains(queue[at]),
    ensures
        second_chance(queue, used, queue.len() as int).0.len() <= MAX_COMPILED,
{
    lemma_unused_goes(queue, used, queue.len() as int, at);
}

proof fn lemma_unused_goes(queue: Seq<usize>, used: Set<usize>, passes: int, at: int)
    requires
        queue.len() <= MAX_COMPILED + 1,
        0 <= at < queue.len(),
        at < passes,
        !used.contains(queue[at]),
    ensures
        second_chance(queue, used, passes).0.len() <= MAX_COMPILED,
    decreases passes,
{
    if queue.len() > MAX_COMPILED {
        let old = queue[0];
        let rest = queue.drop_first();
        if used.contains(old) {
            let next = rest.push(old);
            assert(next[at - 1] == queue[at]);
            lemma_unused_goes(next, used.remove(old), passes - 1, at - 1);
        } else {
            assert(second_chance(rest, used, passes - 1).0 == rest);
        }
    }
}

/// An expression that was used since it was last considered is not dropped,
/// unless the hard ceiling is passed.
pub proof fn law_used_is_kept(queue: Seq<usize>, used: Set<usize>, at: int)
    requires
        queue.len() <= HARD_CEILING,
        0 <= at < queue.len(),
        used.contains(queue[at]),
    ensures
        second_chance(queue, used, queue.len() as int).0.contains(queue[at]),
{
    lemma_used_is_kept(queue, used, queue.len() as int, at);
}

proof fn lemma_used_is_kept(queue: Seq<usize>, used: Set<usize>, passes: int, at: int)
    requires
        queue.len() <= HARD_CEILING,
        0 <= at < queue.len(),
        passes <= queue.len(),
        at < passes ==> used.contains(queue[at]),
    ensures
        second_chance(queue, used, passes).0.contains(queue[at]),
    decreases passes,
{
    let x = queue[at];
    if passes > 0 && queue.len() > MAX_COMPILED {
        let old = queue[0];
        let rest = queue.drop_first();
        if used.contains(old) {
            let next = rest.push(old);
            let pos = if at == 0 { rest.len() as int } else { at - 1 };
            assert(next[pos] == x);
            if pos < passes - 1 {
                if x == old {
                    // The same number further back counts as the one put there.
                    assert(next[rest.len() as int] == x);
                    lemma_used_is_kept(next, used.remove(old), passes - 1, rest.len() as int);
                } else {
                    lemma_used_is_kept(next, used.remove(old), passes - 1, pos);
                }
            } else {
                lemma_used_is_kept(next, used.remove(old), passes - 1, pos);
            }
        } else {
            assert(rest[at - 1] == x);
            lemma_used_is_kept(rest, used, passes - 1, at - 1);
        }
    } else {
        assert(queue.contains(queue[at]));
    }
}

/// A pass takes nothing in: what it leaves built was built before.
pub proof fn law_pass_adds_nothing(queue: Seq<usize>, used: Set<usize>, passes: int)
    ensures
        forall|x: usize| #[trigger]
            second_chance(queue, used, passes).0.contains(x) ==> queue.contains(x),
        queue.no_duplicates() ==> second_chance(queue, used, passes).0.no_duplicates(),
    decreases passes,
{
    if passes > 0 && queue.len() > MAX_COMPILED {
        let old = queue[0];
        let rest = queue.drop_first();
        assert forall|x: usize| rest.contains(x) implies queue.contains(x) by {
            let i = rest.index_of(x);
            assert(queue[i + 1] == x);
        }
        assert(queue.contains(old));
        if queue.no_duplicates() {
            assert forall|i: int, j: int| 0 <= i < rest.len() && 0 <= j < rest.len() && i != j implies rest[i]
                != rest[j] by {
                assert(queue[i + 1] != queue[j + 1]);
            }
            assert forall|i: int| 0 <= i < rest.len() implies rest[i] != old by {
                assert(queue[i + 1] != queue[0]);
            }
        }
        if rest.len() < HARD_CEILING && used.contains(old) {
            let next = rest.push(old);
            assert forall|x: usize| next.contains(x) implies queue.contains(x) by {
                let i = next.index_of(x);
                if i < rest.len() {
                    assert(rest[i] == x);
                    assert(rest.contains(x));
                }
            }
            law_pass_adds_nothing(next, used.remove(old), passes - 1);
        } else {
            law_pass_adds_nothing(rest, used, passes - 1);
        }
    }
}

impl Pool {
    /// The expressions, by number.
    pub closed spec fn all(&self) -> Seq<LazyRegex> {
        self.exprs@
    }

    /// The numbers of the expressions built on demand, oldest first.
    pub closed spec fn order(&self) -> Seq<usize> {
        self.queue@
    }

    /// The numbers of the expressions marked as used.
    pub open spec fn used(&self) -> Set<usize> {
        Set::new(|i: usize| i < self.all().len() && self.all()[i as int].marked())
    }

    /// Whether the queue has exactly the expressions that were built on
    /// demand, each once.
    pub open spec fn linked(&self) -> bool {
        &&& forall|i: int| 0 <= i < self.all().len() ==> (#[trigger] self.all()[i]).wf()
        &&& self.order().no_duplicates()
        &&& forall|i: usize| #[trigger]
            self.order().contains(i) <==> i < self.all().len() && self.all()[i as int].built() && !self.all()[i as int].kept()
    }

    /// The same, with no more built than the ceilings allow.
    pub open spec fn wf(&self) -> bool {
        self.linked() && self.order().len() <= HARD_CEILING
    }

    /// Whether the two hold the same sources.
    pub open spec fn same_sources(&self, other: &Pool) -> bool {
        &&& self.all().len() == other.all().len()
        &&& forall|i: int|
            0 <= i < self.all().len() ==> (#[trigger] self.all()[i]).text() == other.all()[i].text()
        &&& forall|i: int|
            0 <= i < self.all().len() ==> (#[trigger] self.all()[i]).kept() == other.all()[i].kept()
    }

    /// A pool without expressions.
    pub fn new() -> (r: Self)
        ensures
            r.wf(),
            r.all().len() == 0,
            r.order().len() == 0,
    {
        let r = Pool { exprs: Vec::new(), queue: VecDeque::new() };
        assert(r.order().no_duplicates());
        r
    }

    /// How many expressions there are.
    pub fn len(&self) -> (r: usize)
        ensures
            r == self.all().len(),
    {
        self.exprs.len()
    }

    /// Takes an expression in and gives it the next number.
    pub fn insert(&mut self, e: LazyRegex) -> (r: usize)
        requires
            old(self).wf(),
            e.wf(),
            e.built() ==> e.kept(),
            old(self).all().len() < usize::MAX,
        ensures
            final(self).wf(),
            r == old(self).all().len(),
            final(self).all() == old(self).all().push(e),
            final(self).order() == old(self).order(),
    {
        let n: usize = self.exprs.len();
        self.exprs.push(e);
        proof {
            assert forall|i: usize| #[trigger] self.order().contains(i) <==> i < self.all().len()
                && self.all()[i as int].built() && !self.all()[i as int].kept() by {
                assert(old(self).order().contains(i) <==> i < old(self).all().len() && old(
                    self,
                ).all()[i as int].built() && !old(self).all()[i as int].kept());
            }
        }
        n
    }

    /// Whether an expression is built and being kept.
    pub fn is_built(&self, id: usize) -> (r: bool)
        requires
            id < self.all().len(),
        ensures
            r == self.all()[id as int].built(),
    {
        self.exprs[id].is_built()
    }

    /// How many expressions are built right now.
    pub fn compiled_count(&self) -> (r: usize)
        requires
            self.wf(),
        ensures
            r == self.order().len(),
            r <= HARD_CEILING,
    {
        self.queue.len()
    }

    /// Sets what expression `id` holds and its mark.
    fn put(&mut self, id: usize, slot: Slot, used: bool)
        requires
            id < old(self).all().len(),
        ensures
            final(self).order() == old(self).order(),
            final(self).all().len() == old(self).all().len(),
            forall|i: int|
                0 <= i < old(self).all().len() && i != id ==> #[trigger] final(self).all()[i] == old(self).all()[i],
            final(self).exprs@[id as int].slot == slot,
            final(self).exprs@[id as int].used == used,
            final(self).exprs@[id as int].src@ == old(self).exprs@[id as int].src@,
            final(self).exprs@[id as int].pinned == old(self).exprs@[id as int].pinned,
    {
        let mut e = LazyRegex { src: String::new(), slot: Slot::Empty, used: false, pinned: false };
        std::mem::swap(&mut e, &mut self.exprs[id]);
        e.slot = slot;
        e.used = used;
        self.exprs.set(id, e);
    }

    /// Marks expression `id` as used.
    fn mark(&mut self, id: usize)
        requires
            old(self).wf(),
            id < old(self).all().len(),
        ensures
            final(self).wf(),
            final(self).same_sources(old(self)),
            final(self).order() == old(self).order(),
            final(self).used() == old(self).used().insert(id),
    {
        let ghost before = *self;
        let mut e = LazyRegex { src: String::new(), slot: Slot::Empty, used: false, pinned: false };
        std::mem::swap(&mut e, &mut self.exprs[id]);
        e.used = true;
        self.exprs.set(id, e);
        proof {
            assert(before.all()[id as int].wf());
            assert forall|i: usize| #[trigger] self.order().contains(i) <==> i < self.all().len()
                && self.all()[i as int].built() && !self.all()[i as int].kept() by {
                assert(before.order().contains(i) <==> i < before.all().len() && before.all()[i as int].built()
                    && !before.all()[i as int].kept());
            }
            assert(self.used() =~= before.used().insert(id));
        }
    }

    /// One pass over the queue.
    fn settle(&mut self)
        requires
            old(self).linked(),
            old(self).order().len() <= HARD_CEILING + 1,
        ensures
            final(self).wf(),
            final(self).same_sources(old(self)),
            (final(self).order(), final(self).used()) == second_chance(
                old(self).order(),
                old(self).used(),
                old(self).order().len() as int,
            ),
    {
        let ghost first = *self;
        let mut passes: usize = self.queue.len();
        proof {
            law_ceiling(self.order(), self.used());
        }
        while self.queue.len() > MAX_COMPILED && passes > 0
            invariant
                self.linked(),
                self.same_sources(&first),
                second_chance(self.order(), self.used(), passes as int) == second_chance(
                    first.order(),
                    first.used(),
                    first.order().len() as int,
                ),
            decreases passes,
        {
            let ghost before = *self;
            passes = passes - 1;
            if let Some(id) = self.queue.pop_front() {
                proof {
                    assert(before.order()[0] == id);
                    assert(before.order().contains(id));
                    assert(self.order() =~= before.order().drop_first());
                    assert(self.used() =~= before.used());
                }
                if self.queue.len() < HARD_CEILING && self.exprs[id].used {
                    self.queue.push_back(id);
                    let mut e = LazyRegex { src: String::new(), slot: Slot::Empty, used: false, pinned: false };
                    std::mem::swap(&mut e, &mut self.exprs[id]);
                    e.used = false;
                    self.exprs.set(id, e);
                    proof {
                        assert(before.all()[id as int].wf());
                        assert(before.used().contains(id));
                        assert(self.used() =~= before.used().remove(id));
                        assert(self.order() =~= before.order().drop_first().push(id));
                        lemma_rotated(before, *self, id);
                    }
                } else {
                    let used = self.exprs[id].used;
                    self.put(id, Slot::Empty, used);
                    proof {
                        assert(self.used() =~= before.used());
                        lemma_popped(before, *self, id);
                    }
                }
            }
        }
    }

    /// Drops every expression built on demand.
    pub fn drop_compiled(&mut self)
        requires
            old(self).wf(),
        ensures
            final(self).wf(),
            final(self).same_sources(old(self)),
            final(self).order().len() == 0,
            forall|i: int|
                0 <= i < final(self).all().len() ==> (#[trigger] final(self).all()[i]).built() == (old(
                    self,
                ).all()[i].built() && old(self).all()[i].kept()),
    {
        loop
            invariant
                self.wf(),
                self.same_sources(old(self)),
                forall|i: int|
                    0 <= i < self.all().len() && old(self).all()[i].kept() ==> (#[trigger] self.all()[i]).built()
                        == old(self).all()[i].built(),
            ensures
                self.order().len() == 0,
            decreases self.order().len(),
        {
            let ghost before = *self;
            match self.queue.pop_front() {
                None => {
                    break;
                },
                Some(id) => {
                    proof {
                        assert(before.order()[0] == id);
                        assert(before.order().contains(id));
                        assert(self.order() =~= before.order().drop_first());
                    }
                    let used = self.exprs[id].used;
                    self.put(id, Slot::Empty, used);
                    proof {
                        lemma_popped(before, *self, id);
                        assert(self.wf());
                    }
                },
            }
        }
        let n: usize = self.exprs.len();
        proof {
            assert forall|i: int| 0 <= i < n implies (#[trigger] self.all()[i]).built() == (old(
                self,
            ).all()[i].built() && old(self).all()[i].kept()) by {
                if self.all()[i].built() && !self.all()[i].kept() {
                    assert(self.order().contains(i as usize));
                }
            }
        }
    }

    /// Reports whether expression `id` matches in `hay`, building it if
    /// needed and dropping others to stay under the ceiling.
    ///
    /// An expression that is built already is marked as used. One that is
    /// not joins the end of the queue, and one pass over the queue follows.
    pub fn is_match(&mut self, id: usize, hay: &str) -> (r: bool)
        requires
            old(self).wf(),
            id < old(self).all().len(),
        ensures
            final(self).wf(),
            final(self).same_sources(old(self)),
            r == expr_fits(old(self).all()[id as int].text(), hay@),
            ({
                let e = old(self).all()[id as int];
                if e.built() {
                    &&& final(self).order() == old(self).order()
                    &&& final(self).used() == old(self).used().insert(id)
                } else if refusal(e.text()) is Some {
                    &&& final(self).order() == old(self).order()
                    &&& final(self).used() == old(self).used()
                } else {
                    let queue = old(self).order().push(id);
                    (final(self).order(), final(self).used()) == second_chance(
                        queue,
                        old(self).used(),
                        queue.len() as int,
                    )
                }
            }),
    {
        let ghost before = *self;
        let (answer, state): (bool, u8) = match &self.exprs[id].slot {
            Slot::Built(re) => (is_match(re, hay), 0),
            Slot::Failed => (false, 1),
            Slot::Empty => (false, 2),
        };
        assert(before.all()[id as int].wf());
        if state == 0 {
            self.mark(id);
            return answer;
        }
        if state == 1 {
            return false;
        }
        match compile(self.exprs[id].src.as_str()) {
            Err(_) => {
                let used = self.exprs[id].used;
                self.put(id, Slot::Failed, used);
                proof {
                    lemma_unbuilt(before, *self, id);
                    assert(self.used() =~= before.used());
                }
                false
            },
            Ok(re) => {
                let answer = is_match(&re, hay);
                let used = self.exprs[id].used;
                self.put(id, Slot::Built(re), used);
                self.queue.push_back(id);
                proof {
                    assert(self.order() =~= before.order().push(id));
                    assert(self.used() =~= before.used());
                    assert(!before.order().contains(id));
                    assert forall|i: usize| #[trigger] self.order().contains(i) <==> i < self.all().len()
                        && self.all()[i as int].built() && !self.all()[i as int].kept() by {
                        assert(before.order().contains(i) <==> i < before.all().len()
                            && before.all()[i as int].built() && !before.all()[i as int].kept());
                        if before.order().contains(i) {
                            let k = before.order().index_of(i);
                            assert(self.order()[k] == i);
                        }
                        assert(self.order()[before.order().len() as int] == id);
                        if self.order().contains(i) && i != id {
                            let k = self.order().index_of(i);
                            assert(before.order()[k] == i);
                        }
                        assert(!before.all()[id as int].kept() ==> true);
                    }
                }
                self.settle();
                answer
            },
        }
    }
}

/// Dropping the oldest leaves the rest linked.
proof fn lemma_popped(before: Pool, after: Pool, id: usize)
    requires
        before.linked(),
        before.order().len() > 0,
        before.order()[0] == id,
        after.order() == before.order().drop_first(),
        after.all().len() == before.all().len(),
        forall|i: int| 0 <= i < before.all().len() && i != id ==> #[trigger] after.all()[i] == before.all()[i],
        after.all()[id as int].text() == before.all()[id as int].text(),
        after.all()[id as int].kept() == before.all()[id as int].kept(),
        after.all()[id as int].slot is Empty,
    ensures
        after.linked(),
        after.same_sources(&before),
{
    let a = before.order();
    let b = after.order();
    assert(a.contains(id));
    assert forall|i: int, j: int| 0 <= i < b.len() && 0 <= j < b.len() && i != j implies b[i] != b[j] by {
        assert(a[i + 1] != a[j + 1]);
    }
    assert forall|i: usize| #[trigger] b.contains(i) <==> i < after.all().len() && after.all()[i as int].built()
        && !after.all()[i as int].kept() by {
        assert(a.contains(i) <==> i < before.all().len() && before.all()[i as int].built()
            && !before.all()[i as int].kept());
        if b.contains(i) {
            let k = b.index_of(i);
            assert(a[k + 1] == i);
            assert(i != id);
        }
        if a.contains(i) && i != id {
            let k = a.index_of(i);
            assert(b[k - 1] == i);
        }
    }
}

/// Putting the oldest back at the end leaves all linked.
proof fn lemma_rotated(before: Pool, after: Pool, id: usize)
    requires
        before.linked(),
        before.order().len() > 0,
        before.order()[0] == id,
        after.order() == before.order().drop_first().push(id),
        after.all().len() == before.all().len(),
        forall|i: int| 0 <= i < before.all().len() && i != id ==> #[trigger] after.all()[i] == before.all()[i],
        after.all()[id as int].text() == before.all()[id as int].text(),
        after.all()[id as int].kept() == before.all()[id as int].kept(),
        after.all()[id as int].slot == before.all()[id as int].slot,
    ensures
        after.linked(),
        after.same_sources(&before),
{
    let a = before.order();
    let b = after.order();
    assert(a.contains(id));
    assert forall|i: int, j: int| 0 <= i < b.len() && 0 <= j < b.len() && i != j implies b[i] != b[j] by {
        let p = if i == b.len() - 1 { 0 } else { i + 1 };
        let q = if j == b.len() - 1 { 0 } else { j + 1 };
        assert(a[p] != a[q]);
    }
    assert(before.all()[id as int].wf());
    assert forall|i: usize| #[trigger] b.contains(i) <==> i < after.all().len() && after.all()[i as int].built()
        && !after.all()[i as int].kept() by {
        assert(a.contains(i) <==> i < before.all().len() && before.all()[i as int].built()
            && !before.all()[i as int].kept());
        if b.contains(i) {
            let k = b.index_of(i);
            if k < b.len() - 1 {
                assert(a[k + 1] == i);
            }
        }
        if a.contains(i) {
            let k = a.index_of(i);
            if k == 0 {
                assert(b[b.len() - 1] == i);
            } else {
                assert(b[k - 1] == i);
            }
        }
    }
}

/// Recording that an expression will not compile leaves all linked.
proof fn lemma_unbuilt(before: Pool, after: Pool, id: usize)
    requires
        before.wf(),
        id < before.all().len(),
        !before.all()[id as int].built(),
        after.order() == before.order(),
        after.all().len() == before.all().len(),
        forall|i: int| 0 <= i < before.all().len() && i != id ==> #[trigger] after.all()[i] == before.all()[i],
        after.all()[id as int].text() == before.all()[id as int].text(),
        after.all()[id as int].kept() == before.all()[id as int].kept(),
        after.all()[id as int].slot is Failed,
        refusal(after.all()[id as int].text()) is Some,
    ensures
        after.wf(),
        after.same_sources(&before),
{
    assert(before.all()[id as int].wf());
    assert forall|i: usize| #[trigger] after.order().contains(i) <==> i < after.all().len()
        && after.all()[i as int].built() && !after.all()[i as int].kept() by {
        assert(before.order().contains(i) <==> i < before.all().len() && before.all()[i as int].built()
            && !before.all()[i as int].kept());
    }
}

} // verus!

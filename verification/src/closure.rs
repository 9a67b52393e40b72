//! Which sections a set of splices needs: everything that their relocations reach.
use crate::error::{Error, Fault};
use crate::model::{ObjView, ObjectModel, Rel};
use vstd::prelude::*;

verus! {

impl ObjView {
    /// The section that defines a symbol.
    pub open spec fn section_of(self, sym: usize) -> Option<usize> {
        if self.syms.dom().contains(sym) {
            self.syms[sym].section
        } else {
            None
        }
    }

    /// The splice sections among `indices`, in their order.
    pub open spec fn splices_among(self, indices: Seq<usize>) -> Seq<usize>
        decreases indices.len(),
    {
        if indices.len() == 0 {
            Seq::empty()
        } else {
            let rest = self.splices_among(indices.drop_last());
            if self.secs[indices.last()].splice is Some {
                rest.push(indices.last())
            } else {
                rest
            }
        }
    }

    /// The splice sections, in the order of the object.
    pub open spec fn splices(self) -> Seq<usize> {
        self.splices_among(self.indices)
    }

    /// Whether a relocation of section `i` refers to a symbol of section `j`.
    pub open spec fn refers(self, i: usize, j: usize) -> bool {
        self.secs.dom().contains(i) && exists|k: int|
            0 <= k < self.secs[i].relocs.len() && self.section_of(
                (#[trigger] self.secs[i].relocs[k]).sym,
            ) == Some(j)
    }

    /// Whether `path` leads from a splice section along references.
    pub open spec fn is_path(self, path: Seq<usize>) -> bool {
        &&& path.len() > 0
        &&& self.splices().contains(path[0])
        &&& forall|k: int|
            0 <= k < path.len() - 1 ==> self.refers(#[trigger] path[k], path[k + 1])
    }

    /// Whether a splice section needs section `i`.
    pub open spec fn reaches(self, i: usize) -> bool {
        exists|path: Seq<usize>| self.is_path(path) && path.last() == i
    }

    /// Whether `found` can be a set of sections found so far.
    pub open spec fn walkable(self, found: Seq<usize>) -> bool {
        &&& self.secs.dom().finite()
        &&& found.no_duplicates()
        &&& forall|k: int|
            0 <= k < found.len() ==> self.secs.dom().contains(#[trigger] found[k])
    }

    /// What a section with these relocations adds to the sections found so far, and to those
    /// whose relocations are still to be followed.
    pub open spec fn follow(self, relocs: Seq<Rel>, found: Seq<usize>, work: Seq<usize>) -> Result<
        (Seq<usize>, Seq<usize>),
        Fault<Seq<char>>,
    >
        decreases relocs.len(),
    {
        if relocs.len() == 0 {
            Ok((found, work))
        } else {
            let rest = relocs.drop_first();
            match self.section_of(relocs[0].sym) {
                None => self.follow(rest, found, work),
                Some(j) => if found.contains(j) {
                    self.follow(rest, found, work)
                } else if !self.secs.dom().contains(j) {
                    Err(Fault::UnknownSection { index: j })
                } else {
                    self.follow(rest, found.push(j), work.push(j))
                },
            }
        }
    }

    /// The sections found by following the relocations of all sections in `work`, the last one
    /// first.
    pub open spec fn walk(self, found: Seq<usize>, work: Seq<usize>) -> Result<
        Seq<usize>,
        Fault<Seq<char>>,
    >
        decreases self.secs.dom().len() - found.len(), work.len(),
        when self.walkable(found)
    {
        proof {
            if work.len() > 0 {
                lemma_follow(self, self.secs[work.last()].relocs, found, work.drop_last());
            }
        }
        if work.len() == 0 {
            Ok(found)
        } else {
            match self.follow(self.secs[work.last()].relocs, found, work.drop_last()) {
                Err(f) => Err(f),
                Ok((more, todo)) => self.walk(more, todo),
            }
        }
    }

    /// The sections that the splices need: first the splices themselves, then the others in the
    /// order in which they are found.
    pub open spec fn included(self) -> Result<Seq<usize>, Fault<Seq<char>>> {
        self.walk(self.splices(), self.splices())
    }
}

/// At most as many sections are found as there are.
pub proof fn lemma_found_bound(obj: ObjView, found: Seq<usize>)
    requires
        obj.walkable(found),
    ensures
        found.len() <= obj.secs.dom().len(),
{
    found.unique_seq_to_set();
    assert(found.to_set().subset_of(obj.secs.dom())) by {
        assert forall|x: usize| found.to_set().contains(x) implies obj.secs.dom().contains(x) by {
            let k = choose|k: int| 0 <= k < found.len() && found[k] == x;
            assert(obj.secs.dom().contains(found[k]));
        }
    }
    vstd::set_lib::lemma_len_subset(found.to_set(), obj.secs.dom());
}

/// Following relocations adds as much to the sections found as to the work, and keeps what was
/// found first.
pub proof fn lemma_follow(obj: ObjView, relocs: Seq<Rel>, found: Seq<usize>, work: Seq<usize>)
    requires
        obj.walkable(found),
    ensures
        found.len() <= obj.secs.dom().len(),
        obj.follow(relocs, found, work) matches Ok((more, todo)) ==> {
            &&& obj.walkable(more)
            &&& more.len() <= obj.secs.dom().len()
            &&& more.len() >= found.len()
            &&& todo.len() - work.len() == more.len() - found.len()
            &&& more.take(found.len() as int) == found
            &&& todo == work + more.skip(found.len() as int)
        },
    decreases relocs.len(),
{
    lemma_found_bound(obj, found);
    if relocs.len() == 0 {
        assert(found.take(found.len() as int) =~= found);
        assert(work + found.skip(found.len() as int) =~= work);
    } else {
        let rest = relocs.drop_first();
        match obj.section_of(relocs[0].sym) {
            None => lemma_follow(obj, rest, found, work),
            Some(j) => {
                if found.contains(j) {
                    lemma_follow(obj, rest, found, work);
                } else if obj.secs.dom().contains(j) {
                    let f = found.push(j);
                    assert(obj.walkable(f)) by {
                        assert forall|k: int| 0 <= k < f.len() implies obj.secs.dom().contains(
                            #[trigger] f[k],
                        ) by {}
                    }
                    lemma_follow(obj, rest, f, work.push(j));
                    if let Ok((more, todo)) = obj.follow(rest, f, work.push(j)) {
                        assert(more.take(found.len() as int) =~= more.take(f.len() as int).take(
                            found.len() as int,
                        ));
                        assert(f.take(found.len() as int) =~= found);
                        assert(more[found.len() as int] == more.take(f.len() as int)[found.len() as int]);
                        assert(todo =~= work + more.skip(found.len() as int));
                    }
                }
            },
        }
    }
}

/// The splice sections of a well-formed object are sections of it, each listed once.
pub proof fn lemma_splices(obj: ObjView, indices: Seq<usize>)
    requires
        obj.well_formed(),
        indices.no_duplicates(),
        forall|k: int| 0 <= k < indices.len() ==> obj.secs.dom().contains(#[trigger] indices[k]),
    ensures
        obj.walkable(obj.splices_among(indices)),
        forall|i: usize|
            obj.splices_among(indices).contains(i) <==> indices.contains(i)
                && #[trigger] obj.secs[i].splice is Some,
    decreases indices.len(),
{
    if indices.len() > 0 {
        let init = indices.drop_last();
        let last = indices.last();
        assert forall|k: int| 0 <= k < init.len() implies obj.secs.dom().contains(
            #[trigger] init[k],
        ) by {
            assert(init[k] == indices[k]);
        }
        lemma_splices(obj, init);
        let before = obj.splices_among(init);
        let after = obj.splices_among(indices);
        assert(!init.contains(last)) by {
            if init.contains(last) {
                let k = choose|k: int| 0 <= k < init.len() && init[k] == last;
                assert(indices[k] == indices[indices.len() - 1]);
            }
        }
        assert forall|i: usize|
            after.contains(i) <==> indices.contains(i) && #[trigger] obj.secs[i].splice is Some by {
            if i == last {
                assert(indices[indices.len() - 1] == last);
                if obj.secs[last].splice is Some {
                    assert(after[before.len() as int] == last);
                }
            } else {
                if after.contains(i) {
                    let k = choose|k: int| 0 <= k < after.len() && after[k] == i;
                    assert(before[k] == i);
                    assert(before.contains(i));
                    let m = choose|m: int| 0 <= m < init.len() && init[m] == i;
                    assert(indices[m] == i);
                }
                if indices.contains(i) && obj.secs[i].splice is Some {
                    let m = choose|m: int| 0 <= m < indices.len() && indices[m] == i;
                    assert(init[m] == i);
                    assert(before.contains(i));
                    let k = choose|k: int| 0 <= k < before.len() && before[k] == i;
                    assert(after[k] == i);
                }
            }
        }
        assert(obj.walkable(after)) by {
            if obj.secs[last].splice is Some {
                assert(!before.contains(last));
                assert forall|k: int| 0 <= k < after.len() implies obj.secs.dom().contains(
                    #[trigger] after[k],
                ) by {
                    if k < before.len() {
                        assert(after[k] == before[k]);
                    } else {
                        assert(indices[indices.len() - 1] == last);
                    }
                }
            }
        }
    }
}

/// The splices of a well-formed object can start a walk.
pub proof fn lemma_roots(obj: ObjView)
    requires
        obj.well_formed(),
    ensures
        obj.walkable(obj.splices()),
        forall|i: usize|
            #[trigger] obj.splices().contains(i) <==> obj.secs.dom().contains(i)
                && obj.secs[i].splice is Some,
{
    assert forall|k: int| 0 <= k < obj.indices.len() implies obj.secs.dom().contains(
        #[trigger] obj.indices[k],
    ) by {
        assert(obj.indices.contains(obj.indices[k]));
    }
    lemma_splices(obj, obj.indices);
    assert forall|i: usize|
        #[trigger] obj.splices().contains(i) <==> obj.secs.dom().contains(i)
            && obj.secs[i].splice is Some by {
        assert(obj.indices.contains(i) <==> obj.secs.dom().contains(i));
    }
}

/// Whether `v` holds `x`.
pub fn holds_index(v: &Vec<usize>, x: usize) -> (r: bool)
    ensures
        r == v@.contains(x),
{
    let mut i: usize = 0;
    while i < v.len()
        invariant
            i <= v@.len(),
            forall|k: int| 0 <= k < i ==> v@[k] != x,
        decreases v@.len() - i,
    {
        if v[i] == x {
            return true;
        }
        i = i + 1;
    }
    false
}

/// The splice sections of an object, in its order.
pub fn find_splices(obj: &ObjectModel) -> (r: Vec<usize>)
    requires
        obj@.well_formed(),
    ensures
        r@ == obj@.splices(),
{
    let mut r: Vec<usize> = Vec::new();
    let indices = obj.indices();
    let mut i: usize = 0;
    while i < indices.len()
        invariant
            i <= indices@.len(),
            indices@ == obj@.indices,
            obj@.well_formed(),
            r@ == obj@.splices_among(indices@.take(i as int)),
        decreases indices@.len() - i,
    {
        let index: usize = indices[i];
        assert(indices@.take(i + 1).drop_last() =~= indices@.take(i as int));
        assert(obj@.indices.contains(index));
        if let Some(sec) = obj.section(index) {
            if sec.splice.is_some() {
                r.push(index);
            }
        }
        i = i + 1;
    }
    assert(indices@.take(i as int) =~= indices@);
    r
}

/// Follow the relocations of one section.
fn follow_relocs(
    obj: &ObjectModel,
    relocs: &Vec<Rel>,
    found: &mut Vec<usize>,
    work: &mut Vec<usize>,
) -> (r: Result<(), Error>)
    ensures
        match obj@.follow(relocs@, old(found)@, old(work)@) {
            Ok((more, todo)) => r is Ok && final(found)@ == more && final(work)@ == todo,
            Err(f) => r matches Err(e) && e@ == f,
        },
{
    let ghost goal = obj@.follow(relocs@, found@, work@);
    let mut i: usize = 0;
    assert(relocs@.skip(0) =~= relocs@);
    while i < relocs.len()
        invariant
            i <= relocs@.len(),
            goal == obj@.follow(relocs@, old(found)@, old(work)@),
            goal == obj@.follow(relocs@.skip(i as int), found@, work@),
        decreases relocs@.len() - i,
    {
        let rel = relocs[i];
        assert(relocs@.skip(i as int)[0] == rel);
        assert(relocs@.skip(i as int).drop_first() =~= relocs@.skip(i + 1));
        if let Some(sym) = obj.symbol(rel.sym) {
            if let Some(j) = sym.section {
                if !holds_index(found, j) {
                    if obj.section(j).is_none() {
                        return Err(Fault::UnknownSection { index: j });
                    }
                    found.push(j);
                    work.push(j);
                }
            }
        }
        i = i + 1;
    }
    Ok(())
}

/// Collect the sections that the splices need, transitively: first the splices themselves, then
/// the others in the order in which they are found.
pub fn collect(obj: &ObjectModel) -> (r: Result<Vec<usize>, Error>)
    requires
        obj@.well_formed(),
    ensures
        match obj@.included() {
            Ok(found) => r matches Ok(v) && v@ == found,
            Err(f) => r matches Err(e) && e@ == f,
        },
{
    let mut found = find_splices(obj);
    let mut work = find_splices(obj);
    proof {
        lemma_roots(obj@);
    }
    let ghost goal = obj@.included();
    while work.len() > 0
        invariant
            obj@.walkable(found@),
            forall|k: int| 0 <= k < work@.len() ==> obj@.secs.dom().contains(#[trigger] work@[k]),
            goal == obj@.included(),
            goal == obj@.walk(found@, work@),
        decreases obj@.secs.dom().len() - found@.len(), work@.len(),
    {
        let ghost before = found@;
        let ghost todo = work@;
        let next: usize = match work.pop() {
            None => {
                return Ok(found);
            },
            Some(i) => i,
        };
        assert(next == todo.last() && work@ == todo.drop_last());
        match obj.section(next) {
            None => {
                assert(obj@.secs.dom().contains(todo[todo.len() - 1]));
                return Err(Fault::UnknownSection { index: next });
            },
            Some(sec) => {
                proof {
                    lemma_follow(obj@, sec.relocs@, before, todo.drop_last());
                }
                match follow_relocs(obj, &sec.relocs, &mut found, &mut work) {
                    Err(e) => {
                        return Err(e);
                    },
                    Ok(()) => {},
                }
                proof {
                    assert forall|k: int| 0 <= k < work@.len() implies obj@.secs.dom().contains(
                        #[trigger] work@[k],
                    ) by {
                        if k < todo.len() - 1 {
                            assert(work@[k] == todo[k]);
                        } else {
                            let m = k - (todo.len() - 1) + before.len();
                            assert(work@[k] == found@[m]);
                        }
                    }
                }
            },
        }
    }
    Ok(found)
}

impl ObjView {
    /// Whether all that section `i` refers to is among `found`.
    pub open spec fn settled(self, i: usize, found: Seq<usize>) -> bool {
        forall|j: usize| #[trigger] self.refers(i, j) ==> found.contains(j)
    }
}

/// What following the relocations adds is what they refer to.
proof fn lemma_follow_finds(obj: ObjView, relocs: Seq<Rel>, found: Seq<usize>, work: Seq<usize>)
    requires
        obj.walkable(found),
    ensures
        match obj.follow(relocs, found, work) {
            Ok((more, _)) => {
                &&& forall|i: usize| found.contains(i) ==> #[trigger] more.contains(i)
                &&& forall|i: usize| #[trigger]
                    more.contains(i) ==> found.contains(i) || exists|k: int|
                        0 <= k < relocs.len() && obj.section_of((#[trigger] relocs[k]).sym) == Some(
                            i,
                        )
                &&& forall|k: int, j: usize|
                    0 <= k < relocs.len() && obj.section_of((#[trigger] relocs[k]).sym) == Some(j)
                        ==> #[trigger] more.contains(j)
            },
            Err(f) => f matches Fault::UnknownSection { index } && !obj.secs.dom().contains(index)
                && exists|k: int|
                0 <= k < relocs.len() && obj.section_of((#[trigger] relocs[k]).sym) == Some(index),
        },
    decreases relocs.len(),
{
    if relocs.len() > 0 {
        let rest = relocs.drop_first();
        let first = obj.section_of(relocs[0].sym);
        let f = match first {
            Some(j) => if found.contains(j) {
                found
            } else {
                found.push(j)
            },
            None => found,
        };
        let w = match first {
            Some(j) => if found.contains(j) {
                work
            } else {
                work.push(j)
            },
            None => work,
        };
        if first is Some && !found.contains(first->0) && !obj.secs.dom().contains(first->0) {
            assert(obj.section_of(relocs[0].sym) == Some(first->0));
        } else {
            assert(obj.walkable(f)) by {
                assert forall|k: int| 0 <= k < f.len() implies obj.secs.dom().contains(
                    #[trigger] f[k],
                ) by {
                    if k < found.len() {
                        assert(f[k] == found[k]);
                    }
                }
            }
            lemma_follow_finds(obj, rest, f, w);
            assert(forall|k: int| 0 <= k < rest.len() ==> #[trigger] rest[k] == relocs[k + 1]);
            assert(forall|i: usize| #[trigger] found.contains(i) ==> f.contains(i)) by {
                assert forall|i: usize| #[trigger] found.contains(i) implies f.contains(i) by {
                    let k = choose|k: int| 0 <= k < found.len() && found[k] == i;
                    assert(f[k] == i);
                }
            }
            if first is Some {
                let j = first->0;
                assert(f.contains(j)) by {
                    if !found.contains(j) {
                        assert(f[found.len() as int] == j);
                    }
                }
            }
            assert forall|i: usize| #[trigger] f.contains(i) implies found.contains(i) || first
                == Some(i) by {
                let k = choose|k: int| 0 <= k < f.len() && f[k] == i;
                if k < found.len() {
                    assert(found[k] == i);
                }
            }
            match obj.follow(rest, f, w) {
                Ok((more, _)) => {
                    assert forall|i: usize| #[trigger] more.contains(i) implies found.contains(i)
                        || exists|k: int|
                        0 <= k < relocs.len() && obj.section_of((#[trigger] relocs[k]).sym) == Some(
                            i,
                        ) by {
                        if !f.contains(i) {
                            let k = choose|k: int|
                                0 <= k < rest.len() && obj.section_of((#[trigger] rest[k]).sym)
                                    == Some(i);
                            assert(obj.section_of(relocs[k + 1].sym) == Some(i));
                        } else if !found.contains(i) {
                            assert(obj.section_of(relocs[0].sym) == Some(i));
                        }
                    }
                    assert forall|k: int, j: usize|
                        0 <= k < relocs.len() && obj.section_of((#[trigger] relocs[k]).sym) == Some(
                            j,
                        ) implies #[trigger] more.contains(j) by {
                        if k == 0 {
                            assert(f.contains(j));
                        } else {
                            assert(rest[k - 1] == relocs[k]);
                        }
                    }
                },
                Err(fault) => {
                    let index = fault->UnknownSection_index;
                    let k = choose|k: int|
                        0 <= k < rest.len() && obj.section_of((#[trigger] rest[k]).sym) == Some(
                            index,
                        );
                    assert(obj.section_of(relocs[k + 1].sym) == Some(index));
                },
            }
        }
    }
}

/// What a needed section refers to is needed.
pub proof fn lemma_reaches_on(obj: ObjView, i: usize, j: usize)
    requires
        obj.reaches(i),
        obj.refers(i, j),
    ensures
        obj.reaches(j),
{
    let path = choose|path: Seq<usize>| obj.is_path(path) && path.last() == i;
    let longer = path.push(j);
    assert forall|k: int| 0 <= k < longer.len() - 1 implies obj.refers(
        #[trigger] longer[k],
        longer[k + 1],
    ) by {
        if k < path.len() - 1 {
            assert(obj.refers(path[k], path[k + 1]));
        }
    }
    assert(longer[0] == path[0]);
    assert(obj.is_path(longer) && longer.last() == j);
}

/// A walk ends with needed sections only, all of them settled, or at a needed section that the
/// object does not have.
proof fn lemma_walk(obj: ObjView, found: Seq<usize>, work: Seq<usize>)
    requires
        obj.walkable(found),
        forall|i: usize| #[trigger] found.contains(i) ==> obj.reaches(i),
        forall|i: usize| #[trigger] work.contains(i) ==> found.contains(i),
        forall|i: usize| #[trigger]
            found.contains(i) ==> work.contains(i) || obj.settled(i, found),
    ensures
        match obj.walk(found, work) {
            Ok(end) => {
                &&& obj.walkable(end)
                &&& end.len() >= found.len()
                &&& end.take(found.len() as int) == found
                &&& forall|i: usize| #[trigger]
                    end.contains(i) ==> obj.reaches(i) && obj.settled(i, end)
            },
            Err(f) => f matches Fault::UnknownSection { index } && obj.reaches(index)
                && !obj.secs.dom().contains(index),
        },
    decreases obj.secs.dom().len() - found.len(), work.len(),
{
    if work.len() == 0 {
        assert(found.take(found.len() as int) =~= found);
    } else {
        let next = work.last();
        let rest = work.drop_last();
        let relocs = obj.secs[next].relocs;
        assert(work.contains(next));
        assert(obj.secs.dom().contains(next)) by {
            let k = choose|k: int| 0 <= k < found.len() && found[k] == next;
            assert(obj.secs.dom().contains(found[k]));
        }
        lemma_follow(obj, relocs, found, rest);
        lemma_follow_finds(obj, relocs, found, rest);
        match obj.follow(relocs, found, rest) {
            Err(f) => {
                let index = f->UnknownSection_index;
                assert(obj.refers(next, index));
                lemma_reaches_on(obj, next, index);
            },
            Ok((more, todo)) => {
                assert forall|i: usize| #[trigger] more.contains(i) implies obj.reaches(i) by {
                    if !found.contains(i) {
                        assert(obj.refers(next, i));
                        lemma_reaches_on(obj, next, i);
                    }
                }
                assert forall|i: usize| #[trigger] todo.contains(i) implies more.contains(i) by {
                    let k = choose|k: int| 0 <= k < todo.len() && todo[k] == i;
                    if k < rest.len() {
                        assert(work[k] == i);
                        assert(work.contains(i));
                        assert(found.contains(i));
                    } else {
                        assert(more[k - rest.len() + found.len()] == i);
                    }
                }
                assert forall|i: usize| #[trigger] more.contains(i) implies todo.contains(i)
                    || obj.settled(i, more) by {
                    if !found.contains(i) {
                        let k = choose|k: int| 0 <= k < more.len() && more[k] == i;
                        if k < found.len() {
                            assert(more.take(found.len() as int)[k] == found[k]);
                        }
                        assert(todo[k - found.len() + rest.len()] == i);
                    } else if i == next {
                        assert forall|j: usize| #[trigger] obj.refers(i, j) implies more.contains(
                            j,
                        ) by {
                            let k = choose|k: int|
                                0 <= k < relocs.len() && obj.section_of((#[trigger] relocs[k]).sym)
                                    == Some(j);
                            assert(obj.section_of(relocs[k].sym) == Some(j));
                        }
                    } else if work.contains(i) {
                        let k = choose|k: int| 0 <= k < work.len() && work[k] == i;
                        assert(todo[k] == i);
                    } else {
                        assert(obj.settled(i, found));
                        assert forall|j: usize| #[trigger] obj.refers(i, j) implies more.contains(
                            j,
                        ) by {
                            assert(found.contains(j));
                        }
                    }
                }
                lemma_walk(obj, more, todo);
                if let Ok(end) = obj.walk(more, todo) {
                    assert(end.take(found.len() as int) =~= end.take(more.len() as int).take(
                        found.len() as int,
                    ));
                }
            },
        }
    }
}

/// A path from the splices stays inside settled sections.
proof fn lemma_path_inside(obj: ObjView, path: Seq<usize>, end: Seq<usize>)
    requires
        obj.is_path(path),
        forall|i: usize| #[trigger] obj.splices().contains(i) ==> end.contains(i),
        forall|i: usize| #[trigger] end.contains(i) ==> obj.settled(i, end),
    ensures
        end.contains(path.last()),
    decreases path.len(),
{
    if path.len() > 1 {
        let init = path.drop_last();
        assert forall|k: int| 0 <= k < init.len() - 1 implies obj.refers(
            #[trigger] init[k],
            init[k + 1],
        ) by {
            assert(obj.refers(path[k], path[k + 1]));
        }
        lemma_path_inside(obj, init, end);
        let k = path.len() - 2;
        assert(obj.refers(path[k], path[k + 1]));
    }
}

/// The collected sections are exactly those that a splice needs, directly or through others,
/// each once and the splices first. Collection fails only at a needed section that the object
/// does not have.
pub proof fn law_included(obj: ObjView)
    requires
        obj.well_formed(),
    ensures
        match obj.included() {
            Ok(end) => {
                &&& end.no_duplicates()
                &&& obj.splices().len() <= end.len()
                &&& end.take(obj.splices().len() as int) == obj.splices()
                &&& forall|i: usize| #[trigger] end.contains(i) <==> obj.reaches(i)
                &&& forall|i: usize| #[trigger] end.contains(i) ==> obj.secs.dom().contains(i)
            },
            Err(f) => f matches Fault::UnknownSection { index } && obj.reaches(index)
                && !obj.secs.dom().contains(index),
        },
{
    lemma_roots(obj);
    let roots = obj.splices();
    assert forall|i: usize| #[trigger] roots.contains(i) implies obj.reaches(i) by {
        let path = seq![i];
        assert(obj.is_path(path) && path.last() == i);
    }
    lemma_walk(obj, roots, roots);
    if let Ok(end) = obj.included() {
        assert forall|i: usize| #[trigger] roots.contains(i) implies end.contains(i) by {
            let k = choose|k: int| 0 <= k < roots.len() && roots[k] == i;
            assert(end.take(roots.len() as int)[k] == end[k]);
        }
        assert forall|i: usize| #[trigger] end.contains(i) <==> obj.reaches(i) by {
            if obj.reaches(i) {
                let path = choose|path: Seq<usize>| obj.is_path(path) && path.last() == i;
                lemma_path_inside(obj, path, end);
            }
        }
        assert forall|i: usize| #[trigger] end.contains(i) implies obj.secs.dom().contains(i) by {
            let k = choose|k: int| 0 <= k < end.len() && end[k] == i;
            assert(obj.secs.dom().contains(end[k]));
        }
    }
}

/// The splice sections come in the order of the object.
pub proof fn law_splice_order(obj: ObjView, indices: Seq<usize>, a: int, b: int) -> (r: (int, int))
    requires
        0 <= a < b < obj.splices_among(indices).len(),
    ensures
        0 <= r.0 < r.1 < indices.len(),
        indices[r.0] == obj.splices_among(indices)[a],
        indices[r.1] == obj.splices_among(indices)[b],
    decreases indices.len(),
{
    let init = indices.drop_last();
    let before = obj.splices_among(init);
    if b < before.len() {
        law_splice_order(obj, init, a, b)
    } else {
        let k = lemma_splice_place(obj, init, a);
        (k, indices.len() - 1)
    }
}

proof fn lemma_splice_place(obj: ObjView, indices: Seq<usize>, a: int) -> (k: int)
    requires
        0 <= a < obj.splices_among(indices).len(),
    ensures
        0 <= k < indices.len(),
        indices[k] == obj.splices_among(indices)[a],
    decreases indices.len(),
{
    let init = indices.drop_last();
    if a < obj.splices_among(init).len() {
        lemma_splice_place(obj, init, a)
    } else {
        indices.len() - 1
    }
}

/// A walk keeps what was found first.
proof fn lemma_walk_keeps(obj: ObjView, found: Seq<usize>, work: Seq<usize>)
    requires
        obj.walkable(found),
    ensures
        obj.walk(found, work) matches Ok(end) ==> end.len() >= found.len() && end.take(
            found.len() as int,
        ) == found,
    decreases obj.secs.dom().len() - found.len(), work.len(),
{
    if work.len() == 0 {
        assert(found.take(found.len() as int) =~= found);
    } else {
        let relocs = obj.secs[work.last()].relocs;
        lemma_follow(obj, relocs, found, work.drop_last());
        if let Ok((more, todo)) = obj.follow(relocs, found, work.drop_last()) {
            lemma_walk_keeps(obj, more, todo);
            if let Ok(end) = obj.walk(more, todo) {
                assert(end.take(found.len() as int) =~= end.take(more.len() as int).take(
                    found.len() as int,
                ));
            }
        }
    }
}

/// Following relocations finds first what the first of them refers to that was not found yet.
proof fn lemma_follow_first(
    obj: ObjView,
    relocs: Seq<Rel>,
    found: Seq<usize>,
    work: Seq<usize>,
    k: int,
    j: usize,
)
    requires
        obj.walkable(found),
        0 <= k < relocs.len(),
        obj.section_of(relocs[k].sym) == Some(j),
        !found.contains(j),
        forall|i: int|
            0 <= i < k ==> (obj.section_of((#[trigger] relocs[i]).sym) matches Some(s)
                ==> found.contains(s)),
        obj.follow(relocs, found, work) is Ok,
    ensures
        ({
            let more = obj.follow(relocs, found, work)->Ok_0.0;
            more.len() > found.len() && more[found.len() as int] == j
        }),
    decreases k,
{
    let rest = relocs.drop_first();
    if k == 0 {
        let f = found.push(j);
        assert(obj.walkable(f)) by {
            assert forall|n: int| 0 <= n < f.len() implies obj.secs.dom().contains(
                #[trigger] f[n],
            ) by {}
        }
        lemma_follow(obj, rest, f, work.push(j));
        let more = obj.follow(relocs, found, work)->Ok_0.0;
        assert(more.take(f.len() as int)[found.len() as int] == j);
    } else {
        assert(rest[k - 1] == relocs[k]);
        assert(obj.section_of(relocs[0].sym) matches Some(s) ==> found.contains(s));
        assert forall|i: int| 0 <= i < k - 1 implies (obj.section_of((#[trigger] rest[i]).sym)
            matches Some(s) ==> found.contains(s)) by {
            assert(rest[i] == relocs[i + 1]);
        }
        lemma_follow_first(obj, rest, found, work, k - 1, j);
    }
}

/// The relocations of the last splice are followed first, from the first one on: behind the
/// splices comes the section that the first of them refers to that is no splice.
pub proof fn law_found_first(obj: ObjView, found: Seq<usize>, k: int, j: usize)
    requires
        obj.well_formed(),
        obj.included() == Ok::<Seq<usize>, Fault<Seq<char>>>(found),
        obj.splices().len() > 0,
        0 <= k < obj.secs[obj.splices().last()].relocs.len(),
        obj.section_of(obj.secs[obj.splices().last()].relocs[k].sym) == Some(j),
        !obj.splices().contains(j),
        forall|i: int|
            0 <= i < k ==> (obj.section_of(
                (#[trigger] obj.secs[obj.splices().last()].relocs[i]).sym,
            ) matches Some(s) ==> obj.splices().contains(s)),
    ensures
        found.len() > obj.splices().len(),
        found[obj.splices().len() as int] == j,
{
    let roots = obj.splices();
    lemma_roots(obj);
    let relocs = obj.secs[roots.last()].relocs;
    lemma_follow(obj, relocs, roots, roots.drop_last());
    lemma_follow_first(obj, relocs, roots, roots.drop_last(), k, j);
    let (more, todo) = obj.follow(relocs, roots, roots.drop_last())->Ok_0;
    lemma_walk_keeps(obj, more, todo);
    assert(found.take(more.len() as int)[roots.len() as int] == j);
}

} // verus!

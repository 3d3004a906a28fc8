//! Whether the pointer finds its way home.

use crate::layout::EdgeLink;
use crate::machine::MachineId;
use vstd::prelude::*;

verus! {

/// A link leads from one machine to another.
pub open spec fn leads(links: Seq<EdgeLink>, from: Seq<char>, to: Seq<char>) -> bool {
    exists|i: int| 0 <= i < links.len() && (#[trigger] links[i]).from@ == from && links[i].to@ == to
}

/// A way from machine to machine, link by link.
pub open spec fn is_way(links: Seq<EdgeLink>, way: Seq<Seq<char>>) -> bool {
    way.len() > 0 && forall|i: int, j: int|
        0 <= i && j == i + 1 && j < way.len() ==> leads(links, #[trigger] way[i], #[trigger] way[j])
}

/// There is a way from one machine to another.
pub open spec fn reachable(links: Seq<EdgeLink>, from: Seq<char>, to: Seq<char>) -> bool {
    exists|way: Seq<Seq<char>>| #[trigger]
        is_way(links, way) && way[0] == from && way.last() == to
}

/// Every way that begins among some machines stays among them.
pub open spec fn closed(links: Seq<EdgeLink>, seen: spec_fn(Seq<char>) -> bool) -> bool {
    forall|i: int|
        0 <= i < links.len() && seen((#[trigger] links[i]).from@) ==> seen(links[i].to@)
}

proof fn lemma_stays(links: Seq<EdgeLink>, seen: spec_fn(Seq<char>) -> bool, way: Seq<Seq<char>>, n: int)
    requires
        closed(links, seen),
        is_way(links, way),
        seen(way[0]),
        0 <= n < way.len(),
    ensures
        seen(way[n]),
    decreases n,
{
    if n > 0 {
        lemma_stays(links, seen, way, n - 1);
        assert(leads(links, way[n - 1], way[n]));
    }
}

proof fn lemma_onward(links: Seq<EdgeLink>, from: Seq<char>, mid: Seq<char>, to: Seq<char>)
    requires
        reachable(links, from, mid),
        leads(links, mid, to),
    ensures
        reachable(links, from, to),
{
    let way = choose|way: Seq<Seq<char>>| #[trigger]
        is_way(links, way) && way[0] == from && way.last() == mid;
    let longer = way.push(to);
    assert(is_way(links, longer)) by {
        assert forall|i: int, j: int| 0 <= i && j == i + 1 && j < longer.len() implies leads(
            links,
            #[trigger] longer[i],
            #[trigger] longer[j],
        ) by {
            if j < way.len() {
                assert(leads(links, way[i], way[j]));
            }
        }
    }
    assert(longer[0] == from && longer.last() == to);
}

proof fn lemma_here(links: Seq<EdgeLink>, from: Seq<char>)
    ensures
        reachable(links, from, from),
{
    let way = seq![from];
    assert(is_way(links, way));
    assert(way[0] == from && way.last() == from);
}

pub open spec fn among(ids: Seq<MachineId>, id: Seq<char>) -> bool {
    exists|i: int| 0 <= i < ids.len() && (#[trigger] ids[i])@ == id
}

fn is_among(ids: &Vec<MachineId>, id: &MachineId) -> (r: bool)
    ensures
        r == among(ids@, id@),
{
    for i in 0..ids.len()
        invariant
            forall|k: int| 0 <= k < i ==> (#[trigger] ids@[k])@ != id@,
    {
        if ids[i].same(id) {
            assert(ids@[i as int]@ == id@);
            return true;
        }
    }
    false
}

/// No identity occurs twice.
spec fn distinct(ids: Seq<MachineId>) -> bool {
    forall|i: int, j: int| 0 <= i < j < ids.len() ==> (#[trigger] ids[i])@ != (#[trigger] ids[j])@
}

/// The machines that links lead to, behind where they start from.
spec fn ends(links: Seq<EdgeLink>, from: Seq<char>) -> Seq<Seq<char>> {
    Seq::new(links.len() + 1, |i: int| if i == 0 {
        from
    } else {
        links[i - 1].to@
    })
}

proof fn lemma_few(ids: Seq<MachineId>, ends: Seq<Seq<char>>)
    requires
        distinct(ids),
        forall|i: int| 0 <= i < ids.len() ==> ends.contains((#[trigger] ids[i])@),
    ensures
        ids.len() <= ends.len(),
{
    let names = Seq::new(ids.len(), |i: int| ids[i]@);
    assert(names.no_duplicates()) by {
        assert forall|i: int, j: int|
            0 <= i < names.len() && 0 <= j < names.len() && i != j implies names[i] != names[j] by {
            if i < j {
                assert(ids[i]@ != ids[j]@);
            } else {
                assert(ids[j]@ != ids[i]@);
            }
        }
    }
    names.unique_seq_to_set();
    assert(names.to_set().subset_of(ends.to_set())) by {
        assert forall|n: Seq<char>| names.to_set().contains(n) implies ends.to_set().contains(n) by {
            let i = choose|i: int| 0 <= i < names.len() && names[i] == n;
            assert(ends.contains(ids[i]@));
        }
    }
    vstd::seq_lib::seq_to_set_is_finite(ends);
    vstd::set_lib::lemma_len_subset(names.to_set(), ends.to_set());
    ends.lemma_cardinality_of_set();
}

/// Whether there is a way from one machine to another.
pub fn way_exists(links: &Vec<EdgeLink>, from: &MachineId, to: &MachineId) -> (r: bool)
    ensures
        r == reachable(links@, from@, to@),
{
    // Machines that can be reached; the links of the first `done` were followed.
    let mut found: Vec<MachineId> = Vec::new();
    found.push(from.clone());
    let mut done: usize = 0;
    let ghost all = ends(links@, from@);
    proof {
        lemma_here(links@, from@);
        assert(all[0] == from@);
        assert(found@[0]@ == from@);
    }
    while done < found.len()
        invariant
            all == ends(links@, from@),
            done <= found@.len(),
            distinct(found@),
            found@.len() > 0,
            found@[0]@ == from@,
            forall|i: int| 0 <= i < found@.len() ==> all.contains((#[trigger] found@[i])@),
            forall|i: int|
                0 <= i < found@.len() ==> reachable(links@, from@, (#[trigger] found@[i])@),
            forall|i: int, k: int|
                0 <= i < done && 0 <= k < links@.len() && (#[trigger] links@[k]).from@ == (
                #[trigger] found@[i])@ ==> among(found@, links@[k].to@),
        decreases all.len() - done,
    {
        let node = found[done].clone();
        for k in 0..links.len()
            invariant
                    all == ends(links@, from@),
                done < found@.len(),
                node@ == found@[done as int]@,
                distinct(found@),
                found@[0]@ == from@,
                forall|i: int| 0 <= i < found@.len() ==> all.contains((#[trigger] found@[i])@),
                forall|i: int|
                    0 <= i < found@.len() ==> reachable(links@, from@, (#[trigger] found@[i])@),
                forall|i: int, j: int|
                    0 <= i < done && 0 <= j < links@.len() && (#[trigger] links@[j]).from@ == (
                    #[trigger] found@[i])@ ==> among(found@, links@[j].to@),
                forall|j: int|
                    0 <= j < k && (#[trigger] links@[j]).from@ == node@ ==> among(
                        found@,
                        links@[j].to@,
                    ),
        {
            if links[k].from.same(&node) && !is_among(&found, &links[k].to) {
                let ghost before = found@;
                proof {
                    assert(leads(links@, node@, links@[k as int].to@));
                    lemma_onward(links@, from@, node@, links@[k as int].to@);
                    assert(all[k + 1] == links@[k as int].to@);
                }
                found.push(links[k].to.clone());
                proof {
                    assert forall|id: Seq<char>| among(before, id) implies among(found@, id) by {
                        let i = choose|i: int| 0 <= i < before.len() && (#[trigger] before[i])@ == id;
                        assert(found@[i]@ == id);
                    }
                    assert(found@[before.len() as int]@ == links@[k as int].to@);
                    assert(among(found@, links@[k as int].to@));
                    assert(distinct(found@)) by {
                        assert forall|i: int, j: int| 0 <= i < j < found@.len() implies (
                        #[trigger] found@[i])@ != (#[trigger] found@[j])@ by {
                            if j < before.len() {
                                assert(before[i]@ != before[j]@);
                            } else {
                                assert(before[i]@ != links@[k as int].to@);
                            }
                        }
                    }
                    assert forall|i: int| 0 <= i < found@.len() implies all.contains(
                        (#[trigger] found@[i])@,
                    ) by {
                        if i < before.len() {
                            assert(found@[i] == before[i]);
                        }
                    }
                    assert forall|i: int| 0 <= i < found@.len() implies reachable(
                        links@,
                        from@,
                        (#[trigger] found@[i])@,
                    ) by {
                        if i < before.len() {
                            assert(found@[i] == before[i]);
                        }
                    }
                    assert forall|i: int, j: int|
                        0 <= i < done && 0 <= j < links@.len() && (#[trigger] links@[j]).from@ == (
                        #[trigger] found@[i])@ implies among(found@, links@[j].to@) by {
                        assert(found@[i] == before[i]);
                        assert(among(before, links@[j].to@));
                    }
                }
            }
        }
        proof {
            lemma_few(found@, all);
        }
        done = done + 1;
    }
    let r: bool = is_among(&found, to);
    proof {
        let seen = |id: Seq<char>| among(found@, id);
        assert(closed(links@, seen)) by {
            assert forall|k: int|
                0 <= k < links@.len() && seen((#[trigger] links@[k]).from@) implies seen(
                links@[k].to@,
            ) by {
                let i = choose|i: int|
                    0 <= i < found@.len() && (#[trigger] found@[i])@ == links@[k].from@;
                assert(links@[k].from@ == found@[i]@);
            }
        }
        if reachable(links@, from@, to@) {
            let way = choose|way: Seq<Seq<char>>| #[trigger]
                is_way(links@, way) && way[0] == from@ && way.last() == to@;
            assert(found@[0]@ == from@);
            assert(seen(way[0]));
            lemma_stays(links@, seen, way, way.len() - 1);
        }
        if r {
            let i = choose|i: int| 0 <= i < found@.len() && (#[trigger] found@[i])@ == to@;
        }
    }
    r
}

} // verus!

//! Runtime component-type descriptions and dynamically typed component values.
//!
//! A component type is described by a [`TypeInfo`]: a process-wide stable id
//! and the byte size of one value. Component values travel as [`Component`]:
//! a `TypeInfo` plus the value's bytes. Component sets are kept as vectors of
//! `TypeInfo` strictly sorted by id, so that one set has exactly one
//! representation.

use vstd::prelude::*;

verus! {

/// Runtime description of a component type: a stable identifier, injective
/// over the process, and the size in bytes of one value of the type.
#[derive(Clone, Copy, PartialEq, Eq, Structural, Debug, Hash)]
pub struct TypeInfo {
    /// Stable type id; the total order on ids fixes column order.
    pub id: u64,
    /// Size in bytes of one value.
    pub size: usize,
}

impl TypeInfo {
    /// Describe a component type.
    pub fn new(id: u64, size: usize) -> (t: TypeInfo)
        ensures
            t.id == id,
            t.size == size,
    {
        TypeInfo { id, size }
    }
}

/// A dynamically typed component value: the description of its type and the
/// bytes of the value itself.
#[derive(Debug)]
pub struct Component {
    /// The type this value belongs to.
    pub info: TypeInfo,
    /// The value's bytes; exactly `info.size` of them.
    pub data: Vec<u8>,
}

impl Component {
    /// A component value carries exactly as many bytes as its type's size.
    pub open spec fn wf(self) -> bool {
        self.data@.len() == self.info.size
    }

    /// Pack a type description and value bytes into a component value.
    pub fn new(info: TypeInfo, data: Vec<u8>) -> (c: Component)
        requires
            data@.len() == info.size,
        ensures
            c.info == info,
            c.data@ == data@,
            c.wf(),
    {
        Component { info, data }
    }
}

/// The ids of a sequence of type descriptions, in the same order.
pub open spec fn ids_of(ts: Seq<TypeInfo>) -> Seq<u64> {
    ts.map_values(|t: TypeInfo| t.id)
}

/// Whether some description in `ts` carries the id `id`.
pub open spec fn has_id(ts: Seq<TypeInfo>, id: u64) -> bool {
    exists|i: int| 0 <= i < ts.len() && ts[i].id == id
}

/// The set of ids carried by `ts`.
pub open spec fn id_set(ts: Seq<TypeInfo>) -> Set<u64> {
    Set::new(|id: u64| has_id(ts, id))
}

/// Ids strictly increase along the sequence: sorted, and no id twice.
pub open spec fn strictly_sorted(ts: Seq<TypeInfo>) -> bool {
    forall|i: int, j: int| 0 <= i < j < ts.len() ==> ts[i].id < ts[j].id
}

/// Ids strictly increase along a plain id sequence.
pub open spec fn strictly_sorted_ids(s: Seq<u64>) -> bool {
    forall|i: int, j: int| 0 <= i < j < s.len() ==> s[i] < s[j]
}

/// The type descriptions of the components of a bundle, in bundle order.
pub open spec fn infos_of(b: Seq<Component>) -> Seq<TypeInfo> {
    b.map_values(|c: Component| c.info)
}

/// Whether some component of the bundle has the id `id`.
pub open spec fn bundle_has_id(b: Seq<Component>, id: u64) -> bool {
    exists|i: int| 0 <= i < b.len() && b[i].info.id == id
}

/// The set of ids carried by the bundle.
pub open spec fn bundle_id_set(b: Seq<Component>) -> Set<u64> {
    Set::new(|id: u64| bundle_has_id(b, id))
}

/// A well-formed bundle: every component well formed, no type id twice.
pub open spec fn bundle_wf(b: Seq<Component>) -> bool {
    &&& forall|i: int| 0 <= i < b.len() ==> (#[trigger] b[i]).wf()
    &&& forall|i: int, j: int| 0 <= i < j < b.len() ==> b[i].info.id != b[j].info.id
}

/// `has_id` agrees with membership in the id sequence.
pub proof fn lemma_has_id_ids_of(ts: Seq<TypeInfo>, id: u64)
    ensures
        has_id(ts, id) <==> ids_of(ts).contains(id),
{
    if has_id(ts, id) {
        let i = choose|i: int| 0 <= i < ts.len() && ts[i].id == id;
        assert(ids_of(ts)[i] == id);
    }
    if ids_of(ts).contains(id) {
        let i = choose|i: int| 0 <= i < ids_of(ts).len() && ids_of(ts)[i] == id;
        assert(ts[i].id == id);
    }
}

/// Strictly sorted type sequences with the same id set carry the same ids in
/// the same order.
pub proof fn lemma_same_id_set_same_ids(t1: Seq<TypeInfo>, t2: Seq<TypeInfo>)
    requires
        strictly_sorted(t1),
        strictly_sorted(t2),
        id_set(t1) == id_set(t2),
    ensures
        ids_of(t1) == ids_of(t2),
{
    assert forall|id: u64| ids_of(t1).contains(id) <==> ids_of(t2).contains(id) by {
        lemma_has_id_ids_of(t1, id);
        lemma_has_id_ids_of(t2, id);
        assert(id_set(t1).contains(id) == has_id(t1, id));
        assert(id_set(t2).contains(id) == has_id(t2, id));
    }
    assert(strictly_sorted_ids(ids_of(t1))) by {
        assert forall|i: int, j: int| 0 <= i < j < ids_of(t1).len() implies ids_of(t1)[i] < ids_of(
            t1,
        )[j] by {
            assert(ids_of(t1)[i] == t1[i].id && ids_of(t1)[j] == t1[j].id);
        }
    }
    assert(strictly_sorted_ids(ids_of(t2))) by {
        assert forall|i: int, j: int| 0 <= i < j < ids_of(t2).len() implies ids_of(t2)[i] < ids_of(
            t2,
        )[j] by {
            assert(ids_of(t2)[i] == t2[i].id && ids_of(t2)[j] == t2[j].id);
        }
    }
    lemma_sorted_same_members(ids_of(t1), ids_of(t2));
}

/// Two strictly sorted id sequences with the same members are the same
/// sequence: a component set has exactly one sorted spelling.
pub proof fn lemma_sorted_same_members(s1: Seq<u64>, s2: Seq<u64>)
    requires
        strictly_sorted_ids(s1),
        strictly_sorted_ids(s2),
        forall|t: u64| s1.contains(t) <==> s2.contains(t),
    ensures
        s1 == s2,
    decreases s1.len(),
{
    if s1.len() == 0 {
        if s2.len() > 0 {
            assert(s2.contains(s2[0]));
            assert(s1.contains(s2[0]));
        }
        assert(s1 =~= s2);
    } else {
        assert(s1.contains(s1[0]));
        assert(s2.contains(s1[0]));
        assert(s2.len() > 0);
        assert(s2.contains(s2[0]));
        assert(s1.contains(s2[0]));
        let i = choose|i: int| 0 <= i < s1.len() && s1[i] == s2[0];
        let j = choose|j: int| 0 <= j < s2.len() && s2[j] == s1[0];
        assert(s1[0] <= s1[i]);
        assert(s2[0] <= s2[j]);
        assert(s1[0] == s2[0]);
        let t1 = s1.skip(1);
        let t2 = s2.skip(1);
        assert forall|t: u64| t1.contains(t) <==> t2.contains(t) by {
            if t1.contains(t) {
                let k = choose|k: int| 0 <= k < t1.len() && t1[k] == t;
                assert(s1[k + 1] == t);
                assert(s1.contains(t));
                assert(s2.contains(t));
                assert(t > s1[0]);
                let m = choose|m: int| 0 <= m < s2.len() && s2[m] == t;
                assert(m != 0);
                assert(t2[m - 1] == t);
            }
            if t2.contains(t) {
                let k = choose|k: int| 0 <= k < t2.len() && t2[k] == t;
                assert(s2[k + 1] == t);
                assert(s1.contains(t));
                assert(t > s2[0]);
                let m = choose|m: int| 0 <= m < s1.len() && s1[m] == t;
                assert(m != 0);
                assert(t1[m - 1] == t);
            }
        }
        lemma_sorted_same_members(t1, t2);
        assert forall|k: int| 0 <= k < s1.len() implies s1[k] == s2[k] by {
            if k > 0 {
                assert(t1[k - 1] == s1[k]);
                assert(t2[k - 1] == s2[k]);
            }
        }
        assert(s1 =~= s2);
    }
}

/// Inserting into a sequence adds exactly the inserted element to its members.
pub proof fn lemma_insert_members<T>(s: Seq<T>, i: int, x: T)
    requires
        0 <= i <= s.len(),
    ensures
        forall|y: T| s.insert(i, x).contains(y) <==> s.contains(y) || y == x,
{
    let s2 = s.insert(i, x);
    assert forall|y: T| s2.contains(y) <==> s.contains(y) || y == x by {
        if s2.contains(y) {
            let k = choose|k: int| 0 <= k < s2.len() && s2[k] == y;
            if k < i {
                assert(s[k] == y);
            } else if k == i {
            } else {
                assert(s[k - 1] == y);
            }
        }
        if s.contains(y) {
            let k = choose|k: int| 0 <= k < s.len() && s[k] == y;
            if k < i {
                assert(s2[k] == y);
            } else {
                assert(s2[k + 1] == y);
            }
        }
        if y == x {
            assert(s2[i] == y);
        }
    }
}

/// Dropping the last element removes exactly that one appearance from the
/// members.
pub proof fn lemma_drop_last_members<T>(s: Seq<T>)
    requires
        s.len() > 0,
    ensures
        forall|y: T| s.contains(y) <==> s.drop_last().contains(y) || y == s.last(),
{
    assert forall|y: T| s.contains(y) <==> s.drop_last().contains(y) || y == s.last() by {
        if s.contains(y) {
            let k = choose|k: int| 0 <= k < s.len() && s[k] == y;
            if k < s.len() - 1 {
                assert(s.drop_last()[k] == y);
            }
        }
        if s.drop_last().contains(y) {
            let k = choose|k: int| 0 <= k < s.drop_last().len() && s.drop_last()[k] == y;
            assert(s[k] == y);
        }
        if y == s.last() {
            assert(s[s.len() - 1] == y);
        }
    }
}

/// Copy a vector of plainly copyable values.
pub fn copy_vec<T: Copy>(v: &Vec<T>) -> (r: Vec<T>)
    ensures
        r@ == v@,
{
    let mut r: Vec<T> = Vec::new();
    let mut i: usize = 0;
    while i < v.len()
        invariant
            i <= v.len(),
            r@.len() == i,
            forall|k: int| 0 <= k < i ==> r@[k] == v@[k],
        decreases v.len() - i,
    {
        r.push(v[i]);
        i += 1;
    }
    proof {
        assert(r@ =~= v@);
    }
    r
}

/// Find the position of the description carrying `id`, if any.
pub fn find_id(ts: &Vec<TypeInfo>, id: u64) -> (r: Option<usize>)
    ensures
        match r {
            Some(i) => i < ts@.len() && ts@[i as int].id == id,
            None => !has_id(ts@, id),
        },
{
    let mut i: usize = 0;
    while i < ts.len()
        invariant
            i <= ts.len(),
            forall|k: int| 0 <= k < i ==> ts@[k].id != id,
        decreases ts.len() - i,
    {
        if ts[i].id == id {
            return Some(i);
        }
        i += 1;
    }
    None
}

/// The ids of the descriptions, as a vector in the same order.
pub fn ids_vec(ts: &Vec<TypeInfo>) -> (r: Vec<u64>)
    ensures
        r@ == ids_of(ts@),
{
    let mut r: Vec<u64> = Vec::new();
    let mut i: usize = 0;
    while i < ts.len()
        invariant
            i <= ts.len(),
            r@.len() == i,
            forall|k: int| 0 <= k < i ==> r@[k] == ts@[k].id,
        decreases ts.len() - i,
    {
        r.push(ts[i].id);
        i += 1;
    }
    proof {
        assert(r@ =~= ids_of(ts@));
    }
    r
}

/// The type descriptions of the components, as a vector in bundle order.
pub fn infos_vec(b: &Vec<Component>) -> (r: Vec<TypeInfo>)
    ensures
        r@ == infos_of(b@),
{
    let mut r: Vec<TypeInfo> = Vec::new();
    let mut i: usize = 0;
    while i < b.len()
        invariant
            i <= b.len(),
            r@.len() == i,
            forall|k: int| 0 <= k < i ==> r@[k] == b@[k].info,
        decreases b.len() - i,
    {
        r.push(b[i].info);
        i += 1;
    }
    proof {
        assert(r@ =~= infos_of(b@));
    }
    r
}

/// Insert a description into a strictly sorted vector whose ids do not
/// include the new one; the vector stays strictly sorted.
pub fn sorted_insert_info(ts: &mut Vec<TypeInfo>, t: TypeInfo)
    requires
        strictly_sorted(old(ts)@),
        !has_id(old(ts)@, t.id),
    ensures
        strictly_sorted(final(ts)@),
        final(ts)@.len() == old(ts)@.len() + 1,
        forall|x: TypeInfo| final(ts)@.contains(x) <==> old(ts)@.contains(x) || x == t,
        forall|id: u64| has_id(final(ts)@, id) <==> has_id(old(ts)@, id) || id == t.id,
{
    let ghost orig = ts@;
    let mut i: usize = 0;
    while i < ts.len() && ts[i].id < t.id
        invariant
            i <= ts@.len(),
            ts@ == orig,
            forall|k: int| 0 <= k < i ==> ts@[k].id < t.id,
        decreases ts.len() - i,
    {
        i += 1;
    }
    proof {
        assert forall|k: int| i <= k < orig.len() implies orig[k].id > t.id by {
            assert(orig[i as int].id <= orig[k].id);
            assert(orig[i as int].id != t.id) by {
                if orig[i as int].id == t.id {
                    assert(has_id(orig, t.id));
                }
            }
            assert(orig[k].id != t.id) by {
                if orig[k].id == t.id {
                    assert(has_id(orig, t.id));
                }
            }
        }
    }
    ts.insert(i, t);
    proof {
        let new = ts@;
        assert(new == orig.insert(i as int, t));
        assert forall|a: int, b: int| 0 <= a < b < new.len() implies new[a].id < new[b].id by {
            if a < i && b < i {
            } else if a < i && b == i {
            } else if a < i && b > i {
                assert(new[b] == orig[b - 1]);
            } else if a == i {
                assert(new[b] == orig[b - 1]);
            } else {
                assert(new[a] == orig[a - 1]);
                assert(new[b] == orig[b - 1]);
            }
        }
        lemma_insert_members(orig, i as int, t);
        assert forall|id: u64| has_id(new, id) <==> has_id(orig, id) || id == t.id by {
            if has_id(new, id) {
                let k = choose|k: int| 0 <= k < new.len() && new[k].id == id;
                assert(new.contains(new[k]));
            }
            if has_id(orig, id) {
                let k = choose|k: int| 0 <= k < orig.len() && orig[k].id == id;
                assert(orig.contains(orig[k]));
                let m = choose|m: int| 0 <= m < new.len() && new[m] == orig[k];
                assert(has_id(new, id));
            }
            if id == t.id {
                assert(new[i as int] == t);
                assert(has_id(new, id));
            }
        }
    }
}

/// Insert a component into a vector strictly sorted by type id, none of whose
/// components carries the new one's id.
fn sorted_insert_component(b: &mut Vec<Component>, c: Component)
    requires
        strictly_sorted(infos_of(old(b)@)),
        !bundle_has_id(old(b)@, c.info.id),
        bundle_wf(old(b)@),
        c.wf(),
    ensures
        strictly_sorted(infos_of(final(b)@)),
        bundle_wf(final(b)@),
        final(b)@.len() == old(b)@.len() + 1,
        forall|x: Component| final(b)@.contains(x) <==> old(b)@.contains(x) || x == c,
{
    let ghost orig = b@;
    let mut i: usize = 0;
    while i < b.len() && b[i].info.id < c.info.id
        invariant
            i <= b@.len(),
            b@ == orig,
            forall|k: int| 0 <= k < i ==> b@[k].info.id < c.info.id,
        decreases b.len() - i,
    {
        i += 1;
    }
    proof {
        assert forall|k: int| i <= k < orig.len() implies orig[k].info.id > c.info.id by {
            assert(infos_of(orig)[i as int].id <= infos_of(orig)[k].id);
            if orig[k].info.id == c.info.id {
                assert(bundle_has_id(orig, c.info.id));
            }
            if orig[i as int].info.id == c.info.id {
                assert(bundle_has_id(orig, c.info.id));
            }
        }
    }
    b.insert(i, c);
    proof {
        let new = b@;
        assert(new == orig.insert(i as int, c));
        assert forall|a: int, b2: int| 0 <= a < b2 < orig.len() implies orig[a].info.id
            < orig[b2].info.id by {
            assert(infos_of(orig)[a] == orig[a].info);
            assert(infos_of(orig)[b2] == orig[b2].info);
        }
        assert forall|a: int, b2: int| 0 <= a < b2 < new.len() implies new[a].info.id
            < new[b2].info.id by {
            if a < i && b2 < i {
                assert(new[a] == orig[a] && new[b2] == orig[b2]);
            } else if a < i && b2 == i {
                assert(new[a] == orig[a]);
            } else if a < i && b2 > i {
                assert(new[a] == orig[a] && new[b2] == orig[b2 - 1]);
            } else if a == i {
                assert(new[b2] == orig[b2 - 1]);
            } else {
                assert(new[a] == orig[a - 1]);
                assert(new[b2] == orig[b2 - 1]);
            }
        }
        assert forall|a: int, b2: int| 0 <= a < b2 < infos_of(new).len() implies infos_of(
            new,
        )[a].id < infos_of(new)[b2].id by {
            assert(infos_of(new)[a] == new[a].info);
            assert(infos_of(new)[b2] == new[b2].info);
        }
        assert forall|a: int| 0 <= a < new.len() implies (#[trigger] new[a]).wf() by {
            if a < i {
                assert(new[a] == orig[a]);
            } else if a > i {
                assert(new[a] == orig[a - 1]);
            }
        }
        lemma_insert_members(orig, i as int, c);
        assert(forall|x: Component| new.contains(x) <==> orig.contains(x) || x == c);
    }
}

/// Sort a component-set description by type id. The result holds exactly the
/// same descriptions, strictly sorted.
pub fn sort_infos(ts: Vec<TypeInfo>) -> (r: Vec<TypeInfo>)
    requires
        forall|i: int, j: int| 0 <= i < j < ts@.len() ==> ts@[i].id != ts@[j].id,
    ensures
        strictly_sorted(r@),
        r@.len() == ts@.len(),
        forall|x: TypeInfo| r@.contains(x) <==> ts@.contains(x),
        forall|t: u64| has_id(r@, t) <==> has_id(ts@, t),
{
    let ghost orig = ts@;
    let mut rest = ts;
    let mut out: Vec<TypeInfo> = Vec::new();
    while rest.len() > 0
        invariant
            rest@ == orig.take(rest@.len() as int),
            forall|i: int, j: int| 0 <= i < j < orig.len() ==> orig[i].id != orig[j].id,
            out@.len() + rest@.len() == orig.len(),
            strictly_sorted(out@),
            forall|x: TypeInfo| out@.contains(x) <==> orig.skip(rest@.len() as int).contains(x),
        decreases rest.len(),
    {
        let ghost n = rest@.len() as int;
        let t = match rest.pop() {
            Some(t) => t,
            None => {
                proof {
                    assert(false);
                }
                unreached()
            },
        };
        proof {
            assert(t == orig[n - 1]);
            assert(rest@ == orig.take(n - 1)) by {
                assert(rest@ =~= orig.take(n - 1));
            }
            if has_id(out@, t.id) {
                let k = choose|k: int| 0 <= k < out@.len() && out@[k].id == t.id;
                assert(out@.contains(out@[k]));
                let m = choose|m: int| 0 <= m < orig.skip(n).len() && orig.skip(n)[m] == out@[k];
                assert(orig[m + n] == out@[k]);
                assert(orig[m + n].id != orig[n - 1].id);
            }
            assert(!has_id(out@, t.id));
        }
        let ghost out_before = out@;
        sorted_insert_info(&mut out, t);
        proof {
            assert forall|x: TypeInfo| out@.contains(x) <==> orig.skip(n - 1).contains(x) by {
                if out@.contains(x) {
                    if out_before.contains(x) {
                        let m = choose|m: int|
                            0 <= m < orig.skip(n).len() && orig.skip(n)[m] == x;
                        assert(orig.skip(n - 1)[m + 1] == x);
                    } else {
                        assert(x == t);
                        assert(orig.skip(n - 1)[0] == orig[n - 1]);
                    }
                }
                if orig.skip(n - 1).contains(x) {
                    let sk = orig.skip(n - 1);
                    let m = choose|m: int| 0 <= m < sk.len() && sk[m] == x;
                    if m == 0 {
                        assert(x == t);
                    } else {
                        assert(orig.skip(n)[m - 1] == x);
                        assert(out_before.contains(x));
                    }
                }
            }
        }
    }
    proof {
        assert(orig.skip(0) =~= orig);
        assert forall|t: u64| has_id(out@, t) <==> has_id(orig, t) by {
            if has_id(out@, t) {
                let k = choose|k: int| 0 <= k < out@.len() && out@[k].id == t;
                assert(out@.contains(out@[k]));
                let m = choose|m: int| 0 <= m < orig.len() && orig[m] == out@[k];
            }
            if has_id(orig, t) {
                let k = choose|k: int| 0 <= k < orig.len() && orig[k].id == t;
                assert(orig.contains(orig[k]));
                assert(out@.contains(orig[k]));
                let m = choose|m: int| 0 <= m < out@.len() && out@[m] == orig[k];
            }
        }
    }
    out
}

/// Sort a bundle by type id. The result holds exactly the same components,
/// strictly sorted.
pub fn sort_bundle(b: Vec<Component>) -> (r: Vec<Component>)
    requires
        bundle_wf(b@),
    ensures
        bundle_wf(r@),
        strictly_sorted(infos_of(r@)),
        r@.len() == b@.len(),
        forall|x: Component| r@.contains(x) <==> b@.contains(x),
{
    let ghost orig = b@;
    let mut rest = b;
    let mut out: Vec<Component> = Vec::new();
    while rest.len() > 0
        invariant
            rest@ == orig.take(rest@.len() as int),
            bundle_wf(orig),
            out@.len() + rest@.len() == orig.len(),
            bundle_wf(out@),
            strictly_sorted(infos_of(out@)),
            forall|x: Component| out@.contains(x) <==> orig.skip(rest@.len() as int).contains(x),
        decreases rest.len(),
    {
        let ghost n = rest@.len() as int;
        let c = match rest.pop() {
            Some(c) => c,
            None => {
                proof {
                    assert(false);
                }
                unreached()
            },
        };
        proof {
            assert(c == orig[n - 1]);
            assert(rest@ == orig.take(n - 1)) by {
                assert(rest@ =~= orig.take(n - 1));
            }
            // the popped component's id is not among those already placed
            if bundle_has_id(out@, c.info.id) {
                let k = choose|k: int| 0 <= k < out@.len() && out@[k].info.id == c.info.id;
                assert(out@.contains(out@[k]));
                let m = choose|m: int| 0 <= m < orig.skip(n).len() && orig.skip(n)[m] == out@[k];
                assert(orig[m + n] == out@[k]);
                assert(orig[m + n].info.id != orig[n - 1].info.id);
            }
            assert(!bundle_has_id(out@, c.info.id));
        }
        let ghost out_before = out@;
        sorted_insert_component(&mut out, c);
        proof {
            assert forall|x: Component| out@.contains(x) <==> orig.skip(n - 1).contains(x) by {
                if out@.contains(x) {
                    if out_before.contains(x) {
                        let m = choose|m: int|
                            0 <= m < orig.skip(n).len() && orig.skip(n)[m] == x;
                        assert(orig.skip(n - 1)[m + 1] == x);
                    } else {
                        assert(x == c);
                        assert(orig.skip(n - 1)[0] == orig[n - 1]);
                    }
                }
                if orig.skip(n - 1).contains(x) {
                    let sk = orig.skip(n - 1);
                    let m = choose|m: int| 0 <= m < sk.len() && sk[m] == x;
                    if m == 0 {
                        assert(x == c);
                    } else {
                        assert(orig.skip(n)[m - 1] == x);
                        assert(out_before.contains(x));
                    }
                }
            }
        }
    }
    proof {
        assert(orig.skip(0) =~= orig);
    }
    out
}

} // verus!

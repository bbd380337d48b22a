//! The path model behind the sandbox guard: splitting a byte path into
//! components, normalizing `.` and `..`, joining components back into an
//! absolute path, and the component-wise containment check against the root.
//!
//! Paths are handled as byte strings, the form in which a Unix filesystem
//! sees them; `/` separates components.

use vstd::prelude::*;

verus! {

/// The path separator byte, `/`.
pub const SEP: u8 = 47;

/// The byte spelled `.`.
pub const DOT: u8 = 46;

/// The views of a sequence of byte vectors.
pub open spec fn seq_views(vs: Seq<Vec<u8>>) -> Seq<Seq<u8>> {
    vs.map_values(|v: Vec<u8>| v@)
}

/// The component `.`, which normalization drops.
pub open spec fn dot() -> Seq<u8> {
    seq![DOT]
}

/// The component `..`, which normalization resolves by dropping the
/// component before it.
pub open spec fn dot_dot() -> Seq<u8> {
    seq![DOT, DOT]
}

/// Whether a byte path is absolute: nonempty and opening with the separator.
pub open spec fn is_absolute(s: Seq<u8>) -> bool {
    s.len() > 0 && s[0] == SEP
}

/// Splitting a byte path, carrying the component read so far: a separator
/// closes the current component (an empty one, as from `//` or a leading
/// `/`, is dropped), any other byte extends it.
pub open spec fn split_acc(s: Seq<u8>, cur: Seq<u8>) -> Seq<Seq<u8>>
    decreases s.len(),
{
    if s.len() == 0 {
        if cur.len() == 0 {
            Seq::empty()
        } else {
            seq![cur]
        }
    } else if s[0] == SEP {
        if cur.len() == 0 {
            split_acc(s.skip(1), Seq::empty())
        } else {
            seq![cur] + split_acc(s.skip(1), Seq::empty())
        }
    } else {
        split_acc(s.skip(1), cur.push(s[0]))
    }
}

/// The components of a byte path: its maximal runs of non-separator bytes,
/// in order.
pub open spec fn path_components(s: Seq<u8>) -> Seq<Seq<u8>> {
    split_acc(s, Seq::empty())
}

/// Whether a component can stand literally in a path: nonempty and free of
/// separators.
pub open spec fn component_wf(c: Seq<u8>) -> bool {
    c.len() > 0 && forall|i: int| 0 <= i < c.len() ==> c[i] != SEP
}

/// Whether every component of `cs` is well formed.
pub open spec fn components_wf(cs: Seq<Seq<u8>>) -> bool {
    forall|j: int| 0 <= j < cs.len() ==> component_wf(#[trigger] cs[j])
}

/// Normalization of components onto a base stack: `.` is dropped, `..`
/// removes the last entry of the stack (or nothing at the root, as `/..`
/// is `/`), and any other component is appended.
pub open spec fn normalize_onto(base: Seq<Seq<u8>>, cs: Seq<Seq<u8>>) -> Seq<Seq<u8>>
    decreases cs.len(),
{
    if cs.len() == 0 {
        base
    } else if cs[0] == dot() {
        normalize_onto(base, cs.skip(1))
    } else if cs[0] == dot_dot() {
        normalize_onto(if base.len() == 0 { base } else { base.drop_last() }, cs.skip(1))
    } else {
        normalize_onto(base.push(cs[0]), cs.skip(1))
    }
}

/// The normalized components of a byte path.
pub open spec fn normal_components(s: Seq<u8>) -> Seq<Seq<u8>> {
    normalize_onto(Seq::empty(), path_components(s))
}

/// The components of the resolution of request `req` against root `root`:
/// an absolute request replaces the root, as a lexical join does, and a
/// relative one is normalized on top of the normalized root.
pub open spec fn resolved_components(root: Seq<u8>, req: Seq<u8>) -> Seq<Seq<u8>> {
    if is_absolute(req) {
        normal_components(req)
    } else {
        normalize_onto(normal_components(root), path_components(req))
    }
}

/// Component-wise prefix: every component of `pre`, in order, opens `full`.
pub open spec fn is_component_prefix(pre: Seq<Seq<u8>>, full: Seq<Seq<u8>>) -> bool {
    pre.len() <= full.len() && pre =~= full.take(pre.len() as int)
}

/// Whether the sandbox rooted at `root` accepts the request `req`: the
/// resolved components stay at or below the normalized root.
pub open spec fn sandbox_allows(root: Seq<u8>, req: Seq<u8>) -> bool {
    is_component_prefix(normal_components(root), resolved_components(root, req))
}

/// The byte path spelled by a nonempty component sequence, one separator
/// before each component.
pub open spec fn joined(cs: Seq<Seq<u8>>) -> Seq<u8>
    decreases cs.len(),
{
    if cs.len() == 0 {
        Seq::empty()
    } else {
        seq![SEP] + cs[0] + joined(cs.skip(1))
    }
}

/// The absolute byte path of a component sequence; no components spell the
/// root `/` itself.
pub open spec fn abs_path_of(cs: Seq<Seq<u8>>) -> Seq<u8> {
    if cs.len() == 0 {
        seq![SEP]
    } else {
        joined(cs)
    }
}

/// Splits a byte path into its components.
pub fn split_components(s: &Vec<u8>) -> (r: Vec<Vec<u8>>)
    ensures
        seq_views(r@) == path_components(s@),
{
    let mut r: Vec<Vec<u8>> = Vec::new();
    let mut cur: Vec<u8> = Vec::new();
    let mut i: usize = 0;
    proof {
        assert(s@.skip(0) =~= s@);
        assert(seq_views(r@) + split_acc(s@, cur@) =~= path_components(s@));
    }
    while i < s.len()
        invariant
            i <= s.len(),
            seq_views(r@) + split_acc(s@.skip(i as int), cur@) == path_components(s@),
        decreases s.len() - i,
    {
        proof {
            assert(s@.skip(i as int)[0] == s@[i as int]);
            assert(s@.skip(i as int).skip(1) =~= s@.skip(i as int + 1));
        }
        let b = s[i];
        if b == SEP {
            if cur.len() > 0 {
                let ghost r0 = r@;
                let ghost c0 = cur@;
                r.push(cur);
                cur = Vec::new();
                proof {
                    assert(cur@ =~= Seq::<u8>::empty());
                    assert(seq_views(r@) =~= seq_views(r0).push(c0));
                    assert(seq_views(r0).push(c0) + split_acc(s@.skip(i as int + 1), cur@)
                        =~= seq_views(r0) + (seq![c0] + split_acc(s@.skip(i as int + 1), cur@)));
                }
            } else {
                proof {
                    assert(cur@ =~= Seq::<u8>::empty());
                }
            }
        } else {
            cur.push(b);
        }
        i += 1;
    }
    proof {
        assert(s@.skip(s@.len() as int) =~= Seq::<u8>::empty());
    }
    if cur.len() > 0 {
        let ghost r0 = r@;
        let ghost c0 = cur@;
        r.push(cur);
        proof {
            assert(seq_views(r@) =~= seq_views(r0).push(c0));
            assert(seq_views(r0).push(c0) =~= seq_views(r0) + seq![c0]);
        }
    } else {
        proof {
            assert(seq_views(r@) + Seq::<Seq<u8>>::empty() =~= seq_views(r@));
        }
    }
    r
}

/// Whether a component reads `.`.
fn is_dot(c: &Vec<u8>) -> (r: bool)
    ensures
        r == (c@ == dot()),
{
    let r = c.len() == 1 && c[0] == DOT;
    proof {
        if r {
            assert(c@ =~= dot());
        }
        if c@ == dot() {
            assert(c@.len() == 1);
            assert(c@[0] == DOT);
        }
    }
    r
}

/// Whether a component reads `..`.
fn is_dot_dot(c: &Vec<u8>) -> (r: bool)
    ensures
        r == (c@ == dot_dot()),
{
    let r = c.len() == 2 && c[0] == DOT && c[1] == DOT;
    proof {
        if r {
            assert(c@ =~= dot_dot());
        }
        if c@ == dot_dot() {
            assert(c@.len() == 2);
            assert(c@[0] == DOT);
            assert(c@[1] == DOT);
        }
    }
    r
}

/// A copy of a byte vector.
fn copy_bytes(v: &Vec<u8>) -> (r: Vec<u8>)
    ensures
        r@ == v@,
{
    vstd::slice::slice_to_vec(v.as_slice())
}

/// Normalizes the components `cs` on top of the stack `base`.
pub fn normalize_onto_exec(base: Vec<Vec<u8>>, cs: &Vec<Vec<u8>>) -> (r: Vec<Vec<u8>>)
    ensures
        seq_views(r@) == normalize_onto(seq_views(base@), seq_views(cs@)),
{
    let ghost base0 = seq_views(base@);
    let ghost all = seq_views(cs@);
    let mut b = base;
    let mut i: usize = 0;
    proof {
        assert(all.skip(0) =~= all);
    }
    while i < cs.len()
        invariant
            i <= cs.len(),
            all == seq_views(cs@),
            normalize_onto(seq_views(b@), all.skip(i as int)) == normalize_onto(base0, all),
        decreases cs.len() - i,
    {
        proof {
            assert(all.skip(i as int)[0] == cs@[i as int]@);
            assert(all.skip(i as int).skip(1) =~= all.skip(i as int + 1));
        }
        let c = &cs[i];
        if is_dot(c) {
        } else if is_dot_dot(c) {
            if b.len() > 0 {
                let ghost b0 = seq_views(b@);
                b.pop();
                proof {
                    assert(seq_views(b@) =~= b0.drop_last());
                }
            }
        } else {
            let ghost b0 = seq_views(b@);
            let copied = copy_bytes(c);
            b.push(copied);
            proof {
                assert(seq_views(b@) =~= b0.push(cs@[i as int]@));
            }
        }
        i += 1;
    }
    proof {
        assert(all.skip(all.len() as int) =~= Seq::<Seq<u8>>::empty());
    }
    b
}

/// Whether the byte sequences of `a` and `b` are equal.
fn bytes_eq(a: &Vec<u8>, b: &Vec<u8>) -> (r: bool)
    ensures
        r == (a@ == b@),
{
    if a.len() != b.len() {
        return false;
    }
    let mut i: usize = 0;
    while i < a.len()
        invariant
            i <= a.len(),
            a@.len() == b@.len(),
            forall|k: int| 0 <= k < i ==> a@[k] == b@[k],
        decreases a.len() - i,
    {
        if a[i] != b[i] {
            return false;
        }
        i += 1;
    }
    proof {
        assert(a@ =~= b@);
    }
    true
}

/// Whether `pre` is a component-wise prefix of `full`.
pub fn component_prefix(pre: &Vec<Vec<u8>>, full: &Vec<Vec<u8>>) -> (r: bool)
    ensures
        r == is_component_prefix(seq_views(pre@), seq_views(full@)),
{
    if pre.len() > full.len() {
        return false;
    }
    let mut i: usize = 0;
    while i < pre.len()
        invariant
            i <= pre.len() <= full.len(),
            pre@.len() <= full@.len(),
            forall|k: int| 0 <= k < i ==> pre@[k]@ == full@[k]@,
        decreases pre.len() - i,
    {
        if !bytes_eq(&pre[i], &full[i]) {
            proof {
                let p = seq_views(pre@);
                let f = seq_views(full@);
                assert(p[i as int] != f.take(p.len() as int)[i as int]);
            }
            return false;
        }
        i += 1;
    }
    proof {
        assert(seq_views(pre@) =~= seq_views(full@).take(pre@.len() as int));
    }
    true
}

/// Spells the absolute byte path of a component sequence.
pub fn join_components(cs: &Vec<Vec<u8>>) -> (r: Vec<u8>)
    ensures
        r@ == abs_path_of(seq_views(cs@)),
{
    let ghost all = seq_views(cs@);
    if cs.len() == 0 {
        let mut r: Vec<u8> = Vec::new();
        r.push(SEP);
        proof {
            assert(r@ =~= seq![SEP]);
        }
        return r;
    }
    let mut r: Vec<u8> = Vec::new();
    let mut i: usize = 0;
    proof {
        assert(all.take(0) =~= Seq::<Seq<u8>>::empty());
    }
    while i < cs.len()
        invariant
            i <= cs.len(),
            all == seq_views(cs@),
            r@ == joined(all.take(i as int)),
        decreases cs.len() - i,
    {
        let ghost r0 = r@;
        r.push(SEP);
        let mut j: usize = 0;
        let c = &cs[i];
        while j < c.len()
            invariant
                j <= c.len(),
                c@ == cs@[i as int]@,
                r@ == r0 + seq![SEP] + c@.take(j as int),
            decreases c.len() - j,
        {
            let byte = c[j];
            r.push(byte);
            proof {
                assert(r@ =~= r0 + seq![SEP] + c@.take(j as int + 1));
            }
            j += 1;
        }
        proof {
            assert(c@.take(c@.len() as int) =~= c@);
            assert(all.take(i as int + 1) =~= all.take(i as int).push(all[i as int]));
            lemma_joined_push(all.take(i as int), all[i as int]);
            assert(r@ =~= joined(all.take(i as int)) + seq![SEP] + all[i as int]);
        }
        i += 1;
    }
    proof {
        assert(all.take(all.len() as int) =~= all);
    }
    r
}

/// Whether the absolute byte path `candidate` lies at or below `root`,
/// compared component by component (so `/data2` is not below `/data`). This
/// is the containment check to run again on a canonicalized path, where
/// symbolic links have already been expanded by the filesystem.
pub fn is_within(root: &Vec<u8>, candidate: &Vec<u8>) -> (r: bool)
    ensures
        r == is_component_prefix(normal_components(root@), normal_components(candidate@)),
{
    let root_cs = split_components(root);
    let empty_root: Vec<Vec<u8>> = Vec::new();
    proof {
        assert(seq_views(empty_root@) =~= Seq::<Seq<u8>>::empty());
    }
    let root_norm = normalize_onto_exec(empty_root, &root_cs);
    let cand_cs = split_components(candidate);
    let empty_cand: Vec<Vec<u8>> = Vec::new();
    proof {
        assert(seq_views(empty_cand@) =~= Seq::<Seq<u8>>::empty());
    }
    let cand_norm = normalize_onto_exec(empty_cand, &cand_cs);
    component_prefix(&root_norm, &cand_norm)
}

/// Appending one component extends the joined path by a separator and that
/// component.
proof fn lemma_joined_push(p: Seq<Seq<u8>>, x: Seq<u8>)
    ensures
        joined(p.push(x)) == joined(p) + seq![SEP] + x,
    decreases p.len(),
{
    if p.len() == 0 {
        let e: Seq<Seq<u8>> = Seq::empty();
        assert(p.push(x)[0] == x);
        assert(p.push(x).skip(1) =~= e);
        assert(joined(e) == Seq::<u8>::empty());
        assert(joined(p.push(x)) == seq![SEP] + x + joined(e));
        assert(joined(p.push(x)) =~= joined(p) + seq![SEP] + x);
    } else {
        assert(p.push(x)[0] == p[0]);
        assert(p.push(x).skip(1) =~= p.skip(1).push(x));
        lemma_joined_push(p.skip(1), x);
        assert(joined(p.push(x)) == seq![SEP] + p[0] + joined(p.skip(1).push(x)));
        assert(joined(p) == seq![SEP] + p[0] + joined(p.skip(1)));
        assert(joined(p.push(x)) =~= joined(p) + seq![SEP] + x);
    }
}

/// Splitting yields only well-formed components, provided the bytes read so
/// far hold no separator.
proof fn lemma_split_acc_wf(s: Seq<u8>, cur: Seq<u8>)
    requires
        forall|i: int| 0 <= i < cur.len() ==> cur[i] != SEP,
    ensures
        components_wf(split_acc(s, cur)),
    decreases s.len(),
{
    if s.len() == 0 {
        if cur.len() > 0 {
            assert(split_acc(s, cur)[0] == cur);
        }
    } else if s[0] == SEP {
        lemma_split_acc_wf(s.skip(1), Seq::empty());
        if cur.len() > 0 {
            let rest = split_acc(s.skip(1), Seq::empty());
            assert forall|j: int| 0 <= j < (seq![cur] + rest).len() implies component_wf(
                #[trigger] (seq![cur] + rest)[j],
            ) by {
                if j == 0 {
                    assert((seq![cur] + rest)[0] == cur);
                } else {
                    assert((seq![cur] + rest)[j] == rest[j - 1]);
                }
            }
        }
    } else {
        assert forall|i: int| 0 <= i < cur.push(s[0]).len() implies cur.push(s[0])[i] != SEP by {
            if i < cur.len() {
                assert(cur.push(s[0])[i] == cur[i]);
            }
        }
        lemma_split_acc_wf(s.skip(1), cur.push(s[0]));
    }
}

/// Normalization keeps every component well formed.
proof fn lemma_normalize_wf(base: Seq<Seq<u8>>, cs: Seq<Seq<u8>>)
    requires
        components_wf(base),
        components_wf(cs),
    ensures
        components_wf(normalize_onto(base, cs)),
    decreases cs.len(),
{
    if cs.len() == 0 {
    } else {
        assert forall|j: int| 0 <= j < cs.skip(1).len() implies component_wf(
            #[trigger] cs.skip(1)[j],
        ) by {
            assert(cs.skip(1)[j] == cs[j + 1]);
        }
        if cs[0] == dot() {
            lemma_normalize_wf(base, cs.skip(1));
        } else if cs[0] == dot_dot() {
            let b2 = if base.len() == 0 {
                base
            } else {
                base.drop_last()
            };
            assert forall|j: int| 0 <= j < b2.len() implies component_wf(#[trigger] b2[j]) by {
                assert(b2[j] == base[j]);
            }
            lemma_normalize_wf(b2, cs.skip(1));
        } else {
            assert forall|j: int| 0 <= j < base.push(cs[0]).len() implies component_wf(
                #[trigger] base.push(cs[0])[j],
            ) by {
                if j < base.len() {
                    assert(base.push(cs[0])[j] == base[j]);
                } else {
                    assert(base.push(cs[0])[j] == cs[0]);
                }
            }
            lemma_normalize_wf(base.push(cs[0]), cs.skip(1));
        }
    }
}

/// Reading a separator-free run of bytes extends the component in hand.
proof fn lemma_split_acc_over_run(c: Seq<u8>, t: Seq<u8>, cur: Seq<u8>)
    requires
        forall|i: int| 0 <= i < c.len() ==> c[i] != SEP,
    ensures
        split_acc(c + t, cur) == split_acc(t, cur + c),
    decreases c.len(),
{
    if c.len() == 0 {
        assert(c + t =~= t);
        assert(cur + c =~= cur);
    } else {
        assert((c + t)[0] == c[0]);
        assert((c + t).skip(1) =~= c.skip(1) + t);
        assert forall|i: int| 0 <= i < c.skip(1).len() implies c.skip(1)[i] != SEP by {
            assert(c.skip(1)[i] == c[i + 1]);
        }
        lemma_split_acc_over_run(c.skip(1), t, cur.push(c[0]));
        assert(cur.push(c[0]) + c.skip(1) =~= cur + c);
    }
}

/// Splitting the joined spelling of well-formed components, with a nonempty
/// component in hand, yields that component followed by the others.
proof fn lemma_split_acc_of_joined(cur: Seq<u8>, ds: Seq<Seq<u8>>)
    requires
        cur.len() > 0,
        forall|i: int| 0 <= i < cur.len() ==> cur[i] != SEP,
        components_wf(ds),
    ensures
        split_acc(joined(ds), cur) == seq![cur] + ds,
    decreases ds.len(),
{
    if ds.len() == 0 {
        assert(joined(ds) == Seq::<u8>::empty());
        assert(seq![cur] + ds =~= seq![cur]);
    } else {
        let t = joined(ds.skip(1));
        assert(joined(ds) == seq![SEP] + ds[0] + t);
        assert(joined(ds)[0] == SEP);
        assert(joined(ds).skip(1) =~= ds[0] + t);
        assert(component_wf(ds[0]));
        lemma_split_acc_over_run(ds[0], t, Seq::empty());
        assert(Seq::<u8>::empty() + ds[0] =~= ds[0]);
        assert forall|j: int| 0 <= j < ds.skip(1).len() implies component_wf(
            #[trigger] ds.skip(1)[j],
        ) by {
            assert(ds.skip(1)[j] == ds[j + 1]);
        }
        lemma_split_acc_of_joined(ds[0], ds.skip(1));
        assert(split_acc(joined(ds), cur) == seq![cur] + (seq![ds[0]] + ds.skip(1)));
        assert(seq![cur] + (seq![ds[0]] + ds.skip(1)) =~= seq![cur] + ds);
    }
}

/// Splitting the absolute spelling of well-formed components recovers them.
pub proof fn lemma_components_of_abs_path(cs: Seq<Seq<u8>>)
    requires
        components_wf(cs),
    ensures
        path_components(abs_path_of(cs)) == cs,
{
    if cs.len() == 0 {
        let e: Seq<u8> = Seq::empty();
        assert(seq![SEP][0] == SEP);
        assert(seq![SEP].skip(1) =~= e);
        assert(split_acc(e, e) == Seq::<Seq<u8>>::empty());
        assert(split_acc(seq![SEP], e) == split_acc(e, e));
        assert(path_components(abs_path_of(cs)) =~= cs);
    } else {
        let t = joined(cs.skip(1));
        assert(joined(cs) == seq![SEP] + cs[0] + t);
        assert(joined(cs)[0] == SEP);
        assert(joined(cs).skip(1) =~= cs[0] + t);
        assert(component_wf(cs[0]));
        lemma_split_acc_over_run(cs[0], t, Seq::empty());
        assert(Seq::<u8>::empty() + cs[0] =~= cs[0]);
        assert forall|j: int| 0 <= j < cs.skip(1).len() implies component_wf(
            #[trigger] cs.skip(1)[j],
        ) by {
            assert(cs.skip(1)[j] == cs[j + 1]);
        }
        lemma_split_acc_of_joined(cs[0], cs.skip(1));
        assert(seq![cs[0]] + cs.skip(1) =~= cs);
    }
}

/// The resolution of any request is well formed: every resolved component is
/// nonempty and free of separators.
pub proof fn lemma_resolved_components_wf(root: Seq<u8>, req: Seq<u8>)
    ensures
        components_wf(resolved_components(root, req)),
        components_wf(normal_components(root)),
{
    lemma_split_acc_wf(root, Seq::empty());
    lemma_split_acc_wf(req, Seq::empty());
    lemma_normalize_wf(Seq::empty(), path_components(root));
    if is_absolute(req) {
        lemma_normalize_wf(Seq::empty(), path_components(req));
    } else {
        lemma_normalize_wf(normal_components(root), path_components(req));
    }
}

/// Any request the sandbox guard accepts resolves inside the root: splitting
/// the absolute byte path the guard hands back yields the normalized root
/// components as a component-wise prefix, so the resolved object lies at or
/// below the root directory.
pub proof fn lemma_accepted_path_stays_inside(root: Seq<u8>, req: Seq<u8>)
    requires
        sandbox_allows(root, req),
    ensures
        is_component_prefix(
            normal_components(root),
            path_components(abs_path_of(resolved_components(root, req))),
        ),
{
    lemma_resolved_components_wf(root, req);
    lemma_components_of_abs_path(resolved_components(root, req));
}

/// The parent of an absolute byte path: the path of all components but the
/// last, or nothing for the root itself.
pub fn parent_path(p: &Vec<u8>) -> (r: Option<Vec<u8>>)
    ensures
        match r {
            Some(q) => path_components(p@).len() > 0 && q@ == abs_path_of(
                path_components(p@).drop_last(),
            ),
            None => path_components(p@).len() == 0,
        },
{
    let mut cs = split_components(p);
    if cs.len() == 0 {
        None
    } else {
        let ghost c0 = seq_views(cs@);
        cs.pop();
        proof {
            assert(seq_views(cs@) =~= c0.drop_last());
        }
        Some(join_components(&cs))
    }
}

} // verus!

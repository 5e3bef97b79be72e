//! The route tree. A node maps segment keys (literal tokens or `:name`
//! parameter tokens, compared as raw byte strings) to child nodes, holds
//! at most one controller per HTTP method, and an ordered list of
//! middleware bound at that node.
//!
//! Registration walks the tree creating nodes as needed; matching walks
//! it preferring the literal child and falling back to the first
//! parameter child, which matches any non-empty segment. Both are
//! specified against the same abstract views (`route_of`, `mids_of`,
//! `match_of`), so what registration writes is exactly what matching
//! finds.

use crate::bytes::{to_vec_bytes, views_of};
use crate::context::{Callable, RumContext};
use crate::method::MethodType;
use vstd::prelude::*;

verus! {

/// One node of the route tree.
#[verifier::reject_recursive_types(F)]
pub struct Router<F> {
    pub children: Vec<(Vec<u8>, Router<F>)>,
    pub controllers: Vec<(MethodType, F)>,
    pub middleware: Vec<F>,
}

/// First child whose key equals `key`; children are never duplicated, so
/// this is the child under that key.
pub open spec fn child_assoc<F>(s: Seq<(Vec<u8>, Router<F>)>, key: Seq<u8>) -> Option<Router<F>>
    decreases s.len(),
{
    if s.len() == 0 {
        None
    } else if s[0].0@ == key {
        Some(s[0].1)
    } else {
        child_assoc(s.subrange(1, s.len() as int), key)
    }
}

/// First controller registered under `m`.
pub open spec fn ctrl_assoc<F>(s: Seq<(MethodType, F)>, m: MethodType) -> Option<F>
    decreases s.len(),
{
    if s.len() == 0 {
        None
    } else if s[0].0 == m {
        Some(s[0].1)
    } else {
        ctrl_assoc(s.subrange(1, s.len() as int), m)
    }
}

/// A parameter token: it starts with `:`.
pub open spec fn is_param(key: Seq<u8>) -> bool {
    key.len() > 0 && key[0] == 58u8
}

/// The first child whose key is a parameter token, with its key.
pub open spec fn param_first<F>(s: Seq<(Vec<u8>, Router<F>)>) -> Option<(Seq<u8>, Router<F>)>
    decreases s.len(),
{
    if s.len() == 0 {
        None
    } else if is_param(s[0].0@) {
        Some((s[0].0@, s[0].1))
    } else {
        param_first(s.subrange(1, s.len() as int))
    }
}

/// `p` is an initial run of `q`.
pub open spec fn is_prefix_of(p: Seq<Seq<u8>>, q: Seq<Seq<u8>>) -> bool {
    p.len() <= q.len() && p == q.subrange(0, p.len() as int)
}

/// The views of `pattern` from position `i` on.
pub open spec fn seg_views_from(pattern: Seq<Vec<u8>>, i: int) -> Seq<Seq<u8>> {
    views_of(pattern).subrange(i, pattern.len() as int)
}

pub proof fn lemma_seg_views_step(pattern: Seq<Vec<u8>>, i: int)
    requires
        0 <= i < pattern.len(),
    ensures
        seg_views_from(pattern, i).len() == pattern.len() - i,
        seg_views_from(pattern, i)[0] == pattern[i]@,
        seg_views_from(pattern, i).subrange(1, seg_views_from(pattern, i).len() as int)
            == seg_views_from(pattern, i + 1),
{
    assert(seg_views_from(pattern, i).subrange(1, seg_views_from(pattern, i).len() as int)
        =~= seg_views_from(pattern, i + 1));
}

impl<F> Router<F> {
    /// The child under `key`, if any.
    pub open spec fn child(self, key: Seq<u8>) -> Option<Router<F>> {
        child_assoc(self.children@, key)
    }

    /// The controller under `m` at this node, if any.
    pub open spec fn controller(self, m: MethodType) -> Option<F> {
        ctrl_assoc(self.controllers@, m)
    }

    /// The node reached by following `p` with exact key lookups.
    pub open spec fn node_at(self, p: Seq<Seq<u8>>) -> Option<Router<F>>
        decreases p.len(),
    {
        if p.len() == 0 {
            Some(self)
        } else {
            match self.child(p[0]) {
                Some(c) => c.node_at(p.subrange(1, p.len() as int)),
                None => None,
            }
        }
    }

    /// The controller registered under `(p, m)`, if any: the tree's view
    /// as a partial map from pattern and method to handler.
    pub open spec fn route_of(self, p: Seq<Seq<u8>>, m: MethodType) -> Option<F>
        decreases p.len(),
    {
        if p.len() == 0 {
            self.controller(m)
        } else {
            match self.child(p[0]) {
                Some(c) => c.route_of(p.subrange(1, p.len() as int), m),
                None => None,
            }
        }
    }

    /// The middleware list at the node `p` names, if that node exists:
    /// the tree's view as a partial map from path to middleware.
    pub open spec fn mids_of(self, p: Seq<Seq<u8>>) -> Option<Seq<F>>
        decreases p.len(),
    {
        if p.len() == 0 {
            Some(self.middleware@)
        } else {
            match self.child(p[0]) {
                Some(c) => c.mids_of(p.subrange(1, p.len() as int)),
                None => None,
            }
        }
    }

    /// The matching relation: descend one request segment at a time,
    /// preferring the literal child; when no literal child exists, the
    /// first parameter child matches any non-empty segment. A match
    /// yields the registered pattern (parameter tokens preserved) and the
    /// controller under the requested method at the terminal node.
    pub open spec fn match_of(self, m: MethodType, segs: Seq<Seq<u8>>) -> Option<
        (Seq<Seq<u8>>, F),
    >
        decreases segs.len(),
    {
        if segs.len() == 0 {
            match self.controller(m) {
                Some(f) => Some((Seq::empty(), f)),
                None => None,
            }
        } else {
            match self.child(segs[0]) {
                Some(c) => match c.match_of(m, segs.subrange(1, segs.len() as int)) {
                    Some(pf) => Some((seq![segs[0]] + pf.0, pf.1)),
                    None => None,
                },
                None => match param_first(self.children@) {
                    Some(kc) => if segs[0].len() > 0 {
                        match kc.1.match_of(m, segs.subrange(1, segs.len() as int)) {
                            Some(pf) => Some((seq![kc.0] + pf.0, pf.1)),
                            None => None,
                        }
                    } else {
                        None
                    },
                    None => None,
                },
            }
        }
    }

    /// An empty node: no children, no controllers, no middleware.
    pub fn new() -> (r: Router<F>)
        ensures
            r.children@.len() == 0,
            r.controllers@.len() == 0,
            r.middleware@.len() == 0,
            forall|p: Seq<Seq<u8>>, m: MethodType| #[trigger] r.route_of(p, m) is None,
            forall|p: Seq<Seq<u8>>|
                #[trigger] r.mids_of(p) == (if p.len() == 0 {
                    Some(Seq::<F>::empty())
                } else {
                    None::<Seq<F>>
                }),
    {
        let r = Router { children: Vec::new(), controllers: Vec::new(), middleware: Vec::new() };
        proof {
            assert forall|p: Seq<Seq<u8>>, m: MethodType| #[trigger] r.route_of(p, m) is None by {
                if p.len() == 0 {
                    assert(ctrl_assoc(r.controllers@, m) is None);
                } else {
                    assert(child_assoc(r.children@, p[0]) is None);
                }
            }
            assert forall|p: Seq<Seq<u8>>|
                #[trigger] r.mids_of(p) == (if p.len() == 0 {
                    Some(Seq::<F>::empty())
                } else {
                    None::<Seq<F>>
                }) by {
                if p.len() != 0 {
                    assert(child_assoc(r.children@, p[0]) is None);
                }
                assert(r.middleware@ =~= Seq::<F>::empty());
            }
        }
        r
    }

    /// Index of the child under `key`, the first and only one.
    fn find_child(&self, key: &[u8]) -> (r: Option<usize>)
        ensures
            match r {
                Some(j) => j < self.children@.len() && self.children@[j as int].0@ == key@ && (
                forall|l: int| 0 <= l < j ==> self.children@[l].0@ != key@) && self.child(key@)
                    == Some(self.children@[j as int].1),
                None => self.child(key@) is None,
            },
    {
        let n = self.children.len();
        let mut i: usize = 0;
        proof {
            assert(self.children@.subrange(0, self.children@.len() as int) =~= self.children@);
        }
        while i < n
            invariant
                i <= n == self.children@.len(),
                child_assoc(self.children@, key@) == child_assoc(
                    self.children@.subrange(i as int, n as int),
                    key@,
                ),
                forall|l: int| 0 <= l < i ==> self.children@[l].0@ != key@,
            decreases n - i,
        {
            if crate::bytes::bytes_eq(self.children[i].0.as_slice(), key) {
                return Some(i);
            }
            proof {
                assert(self.children@.subrange(i as int, n as int).subrange(
                    1,
                    n - i as int,
                ) =~= self.children@.subrange(i + 1 as int, n as int));
            }
            i = i + 1;
        }
        None
    }

    /// Reference to the controller under `m` at this node.
    fn find_controller(&self, m: MethodType) -> (r: Option<&F>)
        ensures
            match r {
                Some(f) => self.controller(m) == Some(*f),
                None => self.controller(m) is None,
            },
    {
        let n = self.controllers.len();
        let mut i: usize = 0;
        proof {
            assert(self.controllers@.subrange(0, self.controllers@.len() as int)
                =~= self.controllers@);
        }
        while i < n
            invariant
                i <= n == self.controllers@.len(),
                ctrl_assoc(self.controllers@, m) == ctrl_assoc(
                    self.controllers@.subrange(i as int, n as int),
                    m,
                ),
            decreases n - i,
        {
            if self.controllers[i].0 == m {
                return Some(&self.controllers[i].1);
            }
            proof {
                assert(self.controllers@.subrange(i as int, n as int).subrange(
                    1,
                    n - i as int,
                ) =~= self.controllers@.subrange(i + 1 as int, n as int));
            }
            i = i + 1;
        }
        None
    }

    /// Index of the first parameter child.
    fn find_param_child(&self) -> (r: Option<usize>)
        ensures
            match r {
                Some(j) => j < self.children@.len() && param_first(self.children@) == Some(
                    (self.children@[j as int].0@, self.children@[j as int].1),
                ),
                None => param_first(self.children@) is None,
            },
    {
        let n = self.children.len();
        let mut i: usize = 0;
        proof {
            assert(self.children@.subrange(0, self.children@.len() as int) =~= self.children@);
        }
        while i < n
            invariant
                i <= n == self.children@.len(),
                param_first(self.children@) == param_first(
                    self.children@.subrange(i as int, n as int),
                ),
            decreases n - i,
        {
            let key = &self.children[i].0;
            if key.len() > 0 && key[0] == 58u8 {
                return Some(i);
            }
            proof {
                assert(self.children@.subrange(i as int, n as int).subrange(
                    1,
                    n - i as int,
                ) =~= self.children@.subrange(i + 1 as int, n as int));
            }
            i = i + 1;
        }
        None
    }
}

pub proof fn lemma_child_assoc_update<F>(
    s: Seq<(Vec<u8>, Router<F>)>,
    j: int,
    e: (Vec<u8>, Router<F>),
    k: Seq<u8>,
)
    requires
        0 <= j < s.len(),
        e.0@ == s[j].0@,
        forall|l: int| 0 <= l < j ==> s[l].0@ != s[j].0@,
    ensures
        child_assoc(s.update(j, e), k) == (if k == s[j].0@ {
            Some(e.1)
        } else {
            child_assoc(s, k)
        }),
    decreases j,
{
    let s2 = s.update(j, e);
    if j == 0 {
        if k != s[0].0@ {
            assert(s2.subrange(1, s2.len() as int) =~= s.subrange(1, s.len() as int));
        }
    } else {
        assert(s2[0] == s[0]);
        if k == s[0].0@ {
        } else {
            assert(s2.subrange(1, s2.len() as int) =~= s.subrange(1, s.len() as int).update(
                j - 1,
                e,
            ));
            lemma_child_assoc_update(s.subrange(1, s.len() as int), j - 1, e, k);
        }
    }
}

pub proof fn lemma_child_assoc_push<F>(
    s: Seq<(Vec<u8>, Router<F>)>,
    e: (Vec<u8>, Router<F>),
    k: Seq<u8>,
)
    requires
        child_assoc(s, e.0@) is None,
    ensures
        child_assoc(s.push(e), k) == (if k == e.0@ {
            Some(e.1)
        } else {
            child_assoc(s, k)
        }),
    decreases s.len(),
{
    let s2 = s.push(e);
    if s.len() == 0 {
        assert(s2[0] == e);
        if k != e.0@ {
            assert(child_assoc(s2.subrange(1, s2.len() as int), k) is None);
        }
    } else {
        assert(s2[0] == s[0]);
        if k == s[0].0@ {
        } else {
            assert(s2.subrange(1, s2.len() as int) =~= s.subrange(1, s.len() as int).push(e));
            lemma_child_assoc_push(s.subrange(1, s.len() as int), e, k);
        }
    }
}

pub proof fn lemma_ctrl_assoc_update<F>(s: Seq<(MethodType, F)>, j: int, e: (MethodType, F), m: MethodType)
    requires
        0 <= j < s.len(),
        e.0 == s[j].0,
        forall|l: int| 0 <= l < j ==> s[l].0 != s[j].0,
    ensures
        ctrl_assoc(s.update(j, e), m) == (if m == s[j].0 {
            Some(e.1)
        } else {
            ctrl_assoc(s, m)
        }),
    decreases j,
{
    let s2 = s.update(j, e);
    if j == 0 {
        if m != s[0].0 {
            assert(s2.subrange(1, s2.len() as int) =~= s.subrange(1, s.len() as int));
        }
    } else {
        assert(s2[0] == s[0]);
        if m == s[0].0 {
        } else {
            assert(s2.subrange(1, s2.len() as int) =~= s.subrange(1, s.len() as int).update(
                j - 1,
                e,
            ));
            lemma_ctrl_assoc_update(s.subrange(1, s.len() as int), j - 1, e, m);
        }
    }
}

pub proof fn lemma_ctrl_assoc_push<F>(s: Seq<(MethodType, F)>, e: (MethodType, F), m: MethodType)
    requires
        ctrl_assoc(s, e.0) is None,
    ensures
        ctrl_assoc(s.push(e), m) == (if m == e.0 {
            Some(e.1)
        } else {
            ctrl_assoc(s, m)
        }),
    decreases s.len(),
{
    let s2 = s.push(e);
    if s.len() == 0 {
        assert(s2[0] == e);
        if m != e.0 {
            assert(ctrl_assoc(s2.subrange(1, s2.len() as int), m) is None);
        }
    } else {
        assert(s2[0] == s[0]);
        if m == s[0].0 {
        } else {
            assert(s2.subrange(1, s2.len() as int) =~= s.subrange(1, s.len() as int).push(e));
            lemma_ctrl_assoc_push(s.subrange(1, s.len() as int), e, m);
        }
    }
}

impl<F> Router<F> {
    /// Records `h` as the controller for `m` at this node, silently
    /// overwriting an earlier registration of the same method.
    fn set_controller(&mut self, m: MethodType, h: F)
        ensures
            final(self).children == old(self).children,
            final(self).middleware == old(self).middleware,
            forall|m2: MethodType|
                #[trigger] ctrl_assoc(final(self).controllers@, m2) == (if m2 == m {
                    Some(h)
                } else {
                    ctrl_assoc(old(self).controllers@, m2)
                }),
    {
        let n = self.controllers.len();
        let mut i: usize = 0;
        proof {
            assert(self.controllers@.subrange(0, self.controllers@.len() as int)
                =~= self.controllers@);
        }
        while i < n
            invariant
                i <= n == self.controllers@.len(),
                self.controllers == old(self).controllers,
                self.children == old(self).children,
                self.middleware == old(self).middleware,
                ctrl_assoc(self.controllers@, m) == ctrl_assoc(
                    self.controllers@.subrange(i as int, n as int),
                    m,
                ),
                forall|l: int| 0 <= l < i ==> self.controllers@[l].0 != m,
            decreases n - i,
        {
            if self.controllers[i].0 == m {
                let _ = self.controllers.remove(i);
                self.controllers.insert(i, (m, h));
                proof {
                    assert(self.controllers@ =~= old(self).controllers@.update(i as int, (m, h)));
                    assert forall|m2: MethodType|
                        #[trigger] ctrl_assoc(self.controllers@, m2) == (if m2 == m {
                            Some(h)
                        } else {
                            ctrl_assoc(old(self).controllers@, m2)
                        }) by {
                        lemma_ctrl_assoc_update(old(self).controllers@, i as int, (m, h), m2);
                    }
                }
                return ;
            }
            proof {
                assert(self.controllers@.subrange(i as int, n as int).subrange(
                    1,
                    n - i as int,
                ) =~= self.controllers@.subrange(i + 1 as int, n as int));
            }
            i = i + 1;
        }
        self.controllers.push((m, h));
        proof {
            assert(ctrl_assoc(old(self).controllers@, m) is None);
            assert forall|m2: MethodType|
                #[trigger] ctrl_assoc(self.controllers@, m2) == (if m2 == m {
                    Some(h)
                } else {
                    ctrl_assoc(old(self).controllers@, m2)
                }) by {
                lemma_ctrl_assoc_push(old(self).controllers@, (m, h), m2);
            }
        }
    }
}

impl<F> Router<F> {
    /// Walks from this node along `pattern[i..]`, creating nodes as
    /// needed, and records `h` under `m` at the terminal node,
    /// overwriting silently when the same method was registered there
    /// before. The first clause is the registration-map update: exactly
    /// the registered entry changes. The second pins the node set and
    /// every middleware list: nodes created on the way appear with empty
    /// middleware and every other node keeps what it had, so registering
    /// the same pattern twice leaves the tree's shape unchanged.
    pub fn register_at(&mut self, pattern: &Vec<Vec<u8>>, i: usize, m: MethodType, h: F)
        requires
            i <= pattern@.len(),
        ensures
            forall|q: Seq<Seq<u8>>, m2: MethodType|
                #[trigger] final(self).route_of(q, m2) == (if q == seg_views_from(
                    pattern@,
                    i as int,
                ) && m2 == m {
                    Some(h)
                } else {
                    old(self).route_of(q, m2)
                }),
            forall|q: Seq<Seq<u8>>|
                #[trigger] final(self).mids_of(q) == (if old(self).mids_of(q) is Some {
                    old(self).mids_of(q)
                } else if is_prefix_of(q, seg_views_from(pattern@, i as int)) {
                    Some(Seq::<F>::empty())
                } else {
                    None::<Seq<F>>
                }),
        decreases pattern@.len() - i,
    {
        let ghost tail = seg_views_from(pattern@, i as int);
        if i == pattern.len() {
            self.set_controller(m, h);
            proof {
                assert(tail =~= Seq::<Seq<u8>>::empty());
                assert forall|q: Seq<Seq<u8>>, m2: MethodType|
                    #[trigger] final(self).route_of(q, m2) == (if q == tail && m2 == m {
                        Some(h)
                    } else {
                        old(self).route_of(q, m2)
                    }) by {
                    if q.len() == 0 {
                        assert(q =~= tail);
                    } else {
                        assert(q != tail);
                        assert(final(self).child(q[0]) == old(self).child(q[0]));
                    }
                }
                assert forall|q: Seq<Seq<u8>>|
                    #[trigger] final(self).mids_of(q) == (if old(self).mids_of(q) is Some {
                        old(self).mids_of(q)
                    } else if is_prefix_of(q, tail) {
                        Some(Seq::<F>::empty())
                    } else {
                        None::<Seq<F>>
                    }) by {
                    if q.len() == 0 {
                    } else {
                        assert(final(self).child(q[0]) == old(self).child(q[0]));
                        assert(!is_prefix_of(q, tail));
                    }
                }
            }
        } else {
            proof {
                lemma_seg_views_step(pattern@, i as int);
            }
            let ghost tail1 = seg_views_from(pattern@, i + 1 as int);
            let jopt = self.find_child(pattern[i].as_slice());
            match jopt {
                Some(j) => {
                    let (key, mut sub) = self.children.remove(j);
                    let ghost old_sub = sub;
                    sub.register_at(pattern, i + 1, m, h);
                    let ghost new_sub = sub;
                    self.children.insert(j, (key, sub));
                    proof {
                        assert(key@ == pattern@[i as int]@);
                        assert(self.children@ =~= old(self).children@.update(
                            j as int,
                            (key, new_sub),
                        ));
                        assert forall|k: Seq<u8>| #[trigger]
                            child_assoc(self.children@, k) == (if k == pattern@[i as int]@ {
                                Some(new_sub)
                            } else {
                                child_assoc(old(self).children@, k)
                            }) by {
                            lemma_child_assoc_update(
                                old(self).children@,
                                j as int,
                                (key, new_sub),
                                k,
                            );
                        }
                        lemma_register_step::<F>(
                            *old(self),
                            *self,
                            old_sub,
                            new_sub,
                            pattern@[i as int]@,
                            tail,
                            tail1,
                            m,
                            h,
                        );
                    }
                }
                None => {
                    let mut sub: Router<F> = Router::new();
                    let ghost old_sub = sub;
                    sub.register_at(pattern, i + 1, m, h);
                    let ghost new_sub = sub;
                    let key = to_vec_bytes(pattern[i].as_slice());
                    self.children.push((key, sub));
                    proof {
                        assert(key@ == pattern@[i as int]@);
                        assert(self.children@ =~= old(self).children@.push((key, new_sub)));
                        assert forall|k: Seq<u8>| #[trigger]
                            child_assoc(self.children@, k) == (if k == pattern@[i as int]@ {
                                Some(new_sub)
                            } else {
                                child_assoc(old(self).children@, k)
                            }) by {
                            lemma_child_assoc_push(old(self).children@, (key, new_sub), k);
                        }
                        assert forall|q2: Seq<Seq<u8>>, m2: MethodType| #[trigger]
                            old_sub.route_of(q2, m2) is None by {
                            if q2.len() == 0 {
                                assert(ctrl_assoc(old_sub.controllers@, m2) is None);
                            } else {
                                assert(child_assoc(old_sub.children@, q2[0]) is None);
                            }
                        }
                        lemma_register_step::<F>(
                            *old(self),
                            *self,
                            old_sub,
                            new_sub,
                            pattern@[i as int]@,
                            tail,
                            tail1,
                            m,
                            h,
                        );
                    }
                }
            }
        }
    }
}

impl<F> Router<F> {
    /// Resolves `segs[i..]` against this subtree: the literal child is
    /// tried first; when none exists, the first parameter child matches
    /// any non-empty segment. On a match, returns the registered pattern
    /// (parameter tokens preserved) and the controller under `m` at the
    /// terminal node — exactly what `match_of` says.
    pub fn find_route<'a>(&'a self, m: MethodType, segs: &Vec<Vec<u8>>, i: usize) -> (r: Option<
        (Vec<Vec<u8>>, &'a F),
    >)
        requires
            i <= segs@.len(),
        ensures
            match r {
                Some(pf) => self.match_of(m, seg_views_from(segs@, i as int)) == Some(
                    (views_of(pf.0@), *pf.1),
                ),
                None => self.match_of(m, seg_views_from(segs@, i as int)) is None,
            },
        decreases segs@.len() - i,
    {
        let ghost tail = seg_views_from(segs@, i as int);
        if i == segs.len() {
            proof {
                assert(tail =~= Seq::<Seq<u8>>::empty());
            }
            match self.find_controller(m) {
                Some(f) => {
                    let p: Vec<Vec<u8>> = Vec::new();
                    proof {
                        assert(views_of(p@) =~= Seq::<Seq<u8>>::empty());
                    }
                    Some((p, f))
                },
                None => None,
            }
        } else {
            proof {
                lemma_seg_views_step(segs@, i as int);
            }
            let seg = &segs[i];
            match self.find_child(seg.as_slice()) {
                Some(j) => {
                    match self.children[j].1.find_route(m, segs, i + 1) {
                        Some((p, f)) => {
                            let keyv = to_vec_bytes(self.children[j].0.as_slice());
                            let mut p2 = p;
                            proof {
                                assert(views_of(p2@.insert(0, keyv)) =~= seq![keyv@] + views_of(
                                    p2@,
                                ));
                            }
                            p2.insert(0, keyv);
                            Some((p2, f))
                        },
                        None => None,
                    }
                },
                None => {
                    match self.find_param_child() {
                        Some(j) => {
                            if seg.len() > 0 {
                                match self.children[j].1.find_route(m, segs, i + 1) {
                                    Some((p, f)) => {
                                        let keyv = to_vec_bytes(self.children[j].0.as_slice());
                                        let mut p2 = p;
                                        proof {
                                            assert(views_of(p2@.insert(0, keyv)) =~= seq![keyv@]
                                                + views_of(p2@));
                                        }
                                        p2.insert(0, keyv);
                                        Some((p2, f))
                                    },
                                    None => None,
                                }
                            } else {
                                None
                            }
                        },
                        None => None,
                    }
                },
            }
        }
    }

    /// The node reached from here by exact key lookups along `segs[i..]`:
    /// the lookup registration rests on, which never unifies a parameter
    /// token with anything but itself.
    pub fn find_exact<'a>(&'a self, segs: &Vec<Vec<u8>>, i: usize) -> (r: Option<&'a Router<F>>)
        requires
            i <= segs@.len(),
        ensures
            match r {
                Some(n) => self.node_at(seg_views_from(segs@, i as int)) == Some(*n),
                None => self.node_at(seg_views_from(segs@, i as int)) is None,
            },
        decreases segs@.len() - i,
    {
        if i == segs.len() {
            proof {
                assert(seg_views_from(segs@, i as int) =~= Seq::<Seq<u8>>::empty());
            }
            Some(self)
        } else {
            proof {
                lemma_seg_views_step(segs@, i as int);
            }
            match self.find_child(segs[i].as_slice()) {
                Some(j) => self.children[j].1.find_exact(segs, i + 1),
                None => None,
            }
        }
    }

    /// Every middleware the runner visits for the matched pattern `p`,
    /// in invocation order: this node's list, then the chain of the
    /// child the next pattern token names.
    pub open spec fn chain_of(self, p: Seq<Seq<u8>>) -> Seq<F>
        decreases p.len(),
    {
        if p.len() == 0 {
            self.middleware@
        } else {
            match self.child(p[0]) {
                Some(c) => self.middleware@ + c.chain_of(p.subrange(1, p.len() as int)),
                None => self.middleware@,
            }
        }
    }

    /// Where the block of middleware bound at depth `k` starts within
    /// the chain of `p`.
    pub open spec fn chain_offset(self, p: Seq<Seq<u8>>, k: int) -> int
        decreases k,
    {
        if k <= 0 || p.len() == 0 {
            0
        } else {
            match self.child(p[0]) {
                Some(c) => self.middleware@.len() + c.chain_offset(
                    p.subrange(1, p.len() as int),
                    k - 1,
                ),
                None => 0,
            }
        }
    }
}

impl<F: Callable> Router<F> {
    /// Runs the middleware bound along `pattern[i..]`'s ancestor chain,
    /// root to leaf, each list in registration order, and stops as soon
    /// as the context holds a response, so middleware after that point
    /// never runs. What each middleware does to the context is its own
    /// business, so nothing is promised of the context here; the order
    /// walked is the one `chain_of` describes and `lemma_chain_blocks`
    /// pins down.
    pub fn run_middleware(&self, pattern: &Vec<Vec<u8>>, i: usize, ctx: &mut RumContext)
        requires
            i <= pattern@.len(),
        decreases pattern@.len() - i,
    {
        let mut k: usize = 0;
        while k < self.middleware.len()
            invariant
                k <= self.middleware@.len(),
            decreases self.middleware@.len() - k,
        {
            self.middleware[k].invoke(ctx);
            if ctx.has_response() {
                return ;
            }
            k = k + 1;
        }
        if i < pattern.len() {
            match self.find_child(pattern[i].as_slice()) {
                Some(j) => {
                    self.children[j].1.run_middleware(pattern, i + 1, ctx);
                },
                None => {},
            }
        }
    }
}

/// The first parameter child is reachable under its own key: every child
/// before it is a literal, and a literal key is never a parameter token.
pub proof fn lemma_param_first_is_child<F>(s: Seq<(Vec<u8>, Router<F>)>)
    requires
        param_first(s) is Some,
    ensures
        is_param(param_first(s).unwrap().0),
        child_assoc(s, param_first(s).unwrap().0) == Some(param_first(s).unwrap().1),
    decreases s.len(),
{
    if s.len() > 0 && !is_param(s[0].0@) {
        lemma_param_first_is_child(s.subrange(1, s.len() as int));
    }
}

/// A successful match names a real node: the returned pattern leads by
/// exact key lookups to a node whose controller under the method is the
/// returned handler, so the middleware runner's walk and the matched
/// route agree on the tree.
pub proof fn lemma_match_names_node<F>(r: Router<F>, m: MethodType, segs: Seq<Seq<u8>>)
    requires
        r.match_of(m, segs) is Some,
    ensures
        r.match_of(m, segs).unwrap().0.len() == segs.len(),
        r.node_at(r.match_of(m, segs).unwrap().0) is Some,
        r.node_at(r.match_of(m, segs).unwrap().0).unwrap().controller(m) == Some(
            r.match_of(m, segs).unwrap().1,
        ),
    decreases segs.len(),
{
    let p = r.match_of(m, segs).unwrap().0;
    if segs.len() == 0 {
        assert(p =~= Seq::<Seq<u8>>::empty());
    } else {
        let segs1 = segs.subrange(1, segs.len() as int);
        match r.child(segs[0]) {
            Some(c) => {
                let p1 = c.match_of(m, segs1).unwrap().0;
                lemma_match_names_node(c, m, segs1);
                assert(p == seq![segs[0]] + p1);
                assert(p[0] == segs[0]);
                assert(p.subrange(1, p.len() as int) =~= p1);
            },
            None => {
                let kc = param_first(r.children@).unwrap();
                lemma_param_first_is_child(r.children@);
                let p1 = kc.1.match_of(m, segs1).unwrap().0;
                lemma_match_names_node(kc.1, m, segs1);
                assert(p == seq![kc.0] + p1);
                assert(p[0] == kc.0);
                assert(p.subrange(1, p.len() as int) =~= p1);
            },
        }
    }
}

/// Middleware bound at the ancestor of depth `k` of a matched pattern
/// `p` stands in the executed chain as one contiguous block, exactly
/// once, at an offset that grows with `k` — root first, leaf last — and
/// the blocks of the ancestors tile the whole chain: nothing else runs.
pub proof fn lemma_chain_blocks<F>(r: Router<F>, p: Seq<Seq<u8>>, k: int)
    requires
        0 <= k <= p.len(),
        r.node_at(p) is Some,
    ensures
        r.node_at(p.subrange(0, k)) is Some,
        0 <= r.chain_offset(p, k),
        r.chain_offset(p, k) + r.node_at(p.subrange(0, k)).unwrap().middleware@.len()
            <= r.chain_of(p).len(),
        r.chain_of(p).subrange(
            r.chain_offset(p, k),
            r.chain_offset(p, k) + r.node_at(p.subrange(0, k)).unwrap().middleware@.len(),
        ) == r.node_at(p.subrange(0, k)).unwrap().middleware@,
        k < p.len() ==> r.chain_offset(p, k + 1) == r.chain_offset(p, k) + r.node_at(
            p.subrange(0, k),
        ).unwrap().middleware@.len(),
        k == p.len() ==> r.chain_offset(p, k) + r.node_at(p.subrange(0, k)).unwrap().middleware@.len()
            == r.chain_of(p).len(),
    decreases k,
{
    if p.len() == 0 {
        assert(p.subrange(0, k) =~= p);
        assert(r.chain_of(p).subrange(0, r.middleware@.len() as int) =~= r.middleware@);
    } else {
        let c = r.child(p[0]).unwrap();
        let p1 = p.subrange(1, p.len() as int);
        assert(r.node_at(p) == c.node_at(p1));
        if k == 0 {
            assert(p.subrange(0, 0) =~= Seq::<Seq<u8>>::empty());
            assert(r.chain_of(p) == r.middleware@ + c.chain_of(p1));
            assert(r.chain_of(p).subrange(0, r.middleware@.len() as int) =~= r.middleware@);
            assert(r.chain_offset(p, 1) == r.middleware@.len() + c.chain_offset(p1, 0));
        } else {
            lemma_chain_blocks(c, p1, k - 1);
            let pk = p.subrange(0, k);
            assert(pk[0] == p[0]);
            assert(pk.subrange(1, pk.len() as int) =~= p1.subrange(0, k - 1));
            assert(r.node_at(pk) == c.node_at(p1.subrange(0, k - 1)));
            let node = c.node_at(p1.subrange(0, k - 1)).unwrap();
            let off1 = c.chain_offset(p1, k - 1);
            assert(r.chain_offset(p, k) == r.middleware@.len() + off1);
            assert(r.chain_of(p) == r.middleware@ + c.chain_of(p1));
            assert(r.chain_of(p).subrange(
                r.middleware@.len() + off1,
                r.middleware@.len() + off1 + node.middleware@.len(),
            ) =~= c.chain_of(p1).subrange(off1, off1 + node.middleware@.len()));
            if k < p.len() {
                assert(r.chain_offset(p, k + 1) == r.middleware@.len() + c.chain_offset(p1, k));
            }
        }
    }
}

impl<F> Router<F> {
    /// `segs` instantiates `pattern` in this tree: the lengths agree; at
    /// a literal pattern token the request segment equals it; at a
    /// parameter token the segment is non-empty, the node has no literal
    /// child equal to the segment (literal children take precedence),
    /// and the token is the node's first parameter child — the one the
    /// matcher tries.
    pub open spec fn instantiates(self, pattern: Seq<Seq<u8>>, segs: Seq<Seq<u8>>) -> bool
        decreases pattern.len(),
    {
        if pattern.len() != segs.len() {
            false
        } else if pattern.len() == 0 {
            true
        } else {
            match self.child(pattern[0]) {
                None => false,
                Some(c) => (if segs[0] == pattern[0] {
                    true
                } else {
                    is_param(pattern[0]) && segs[0].len() > 0 && self.child(segs[0]) is None
                        && param_first(self.children@) == Some((pattern[0], c))
                }) && c.instantiates(
                    pattern.subrange(1, pattern.len() as int),
                    segs.subrange(1, segs.len() as int),
                ),
            }
        }
    }
}

/// A registered route is found: when `(pattern, m)` is registered with
/// some handler and the request's segments instantiate the pattern, the
/// matcher returns exactly that pattern and that handler.
pub proof fn lemma_registered_route_matches<F>(
    r: Router<F>,
    pattern: Seq<Seq<u8>>,
    segs: Seq<Seq<u8>>,
    m: MethodType,
)
    requires
        r.instantiates(pattern, segs),
        r.route_of(pattern, m) is Some,
    ensures
        r.match_of(m, segs) == Some((pattern, r.route_of(pattern, m).unwrap())),
    decreases pattern.len(),
{
    if pattern.len() == 0 {
        assert(Seq::<Seq<u8>>::empty() =~= pattern);
    } else {
        let c = r.child(pattern[0]).unwrap();
        let pattern1 = pattern.subrange(1, pattern.len() as int);
        let segs1 = segs.subrange(1, segs.len() as int);
        lemma_registered_route_matches(c, pattern1, segs1, m);
        if segs[0] == pattern[0] {
            assert(r.child(segs[0]) == Some(c));
            assert(seq![segs[0]] + pattern1 =~= pattern);
        } else {
            assert(seq![pattern[0]] + pattern1 =~= pattern);
        }
    }
}

/// Registering the same `(pattern, method)` twice replaces the handler
/// and nothing else: after the second registration the pattern maps to
/// the new handler, every other route is as it was before the first, and
/// the second registration changes no node and no middleware list — the
/// tree gains one node per distinct segment path, never a duplicate
/// sibling. The two pairs of premises are what `register_at` ensures of
/// each registration in turn.
pub proof fn lemma_reregistration_replaces<F>(
    t0: Router<F>,
    t1: Router<F>,
    t2: Router<F>,
    pattern: Seq<Seq<u8>>,
    m: MethodType,
    h1: F,
    h2: F,
)
    requires
        forall|q: Seq<Seq<u8>>, m2: MethodType|
            #[trigger] t1.route_of(q, m2) == (if q == pattern && m2 == m {
                Some(h1)
            } else {
                t0.route_of(q, m2)
            }),
        forall|q: Seq<Seq<u8>>|
            #[trigger] t1.mids_of(q) == (if t0.mids_of(q) is Some {
                t0.mids_of(q)
            } else if is_prefix_of(q, pattern) {
                Some(Seq::<F>::empty())
            } else {
                None::<Seq<F>>
            }),
        forall|q: Seq<Seq<u8>>, m2: MethodType|
            #[trigger] t2.route_of(q, m2) == (if q == pattern && m2 == m {
                Some(h2)
            } else {
                t1.route_of(q, m2)
            }),
        forall|q: Seq<Seq<u8>>|
            #[trigger] t2.mids_of(q) == (if t1.mids_of(q) is Some {
                t1.mids_of(q)
            } else if is_prefix_of(q, pattern) {
                Some(Seq::<F>::empty())
            } else {
                None::<Seq<F>>
            }),
    ensures
        t2.route_of(pattern, m) == Some(h2),
        forall|q: Seq<Seq<u8>>, m2: MethodType|
            !(q == pattern && m2 == m) ==> #[trigger] t2.route_of(q, m2) == t0.route_of(q, m2),
        forall|q: Seq<Seq<u8>>| #[trigger] t2.mids_of(q) == t1.mids_of(q),
{
    assert forall|q: Seq<Seq<u8>>| #[trigger] t2.mids_of(q) == t1.mids_of(q) by {
        if t1.mids_of(q) is None {
            assert(t0.mids_of(q) is None);
            assert(!is_prefix_of(q, pattern));
        }
    }
}

/// A node's middleware list, or the empty list where the node is absent.
pub open spec fn mids_or_empty<F>(o: Option<Seq<F>>) -> Seq<F> {
    match o {
        Some(s) => s,
        None => Seq::empty(),
    }
}

impl<F> Router<F> {
    /// Walks from this node along `path[i..]`, creating nodes as needed,
    /// and appends `ms` onto the middleware list of the terminal node,
    /// keeping what was registered there before. No controller and no
    /// other node's middleware changes.
    pub fn add_middleware_at(&mut self, path: &Vec<Vec<u8>>, i: usize, ms: Vec<F>)
        requires
            i <= path@.len(),
        ensures
            forall|q: Seq<Seq<u8>>, m2: MethodType|
                #[trigger] final(self).route_of(q, m2) == old(self).route_of(q, m2),
            forall|q: Seq<Seq<u8>>|
                #[trigger] final(self).mids_of(q) == (if q == seg_views_from(path@, i as int) {
                    Some(mids_or_empty(old(self).mids_of(q)) + ms@)
                } else if old(self).mids_of(q) is Some {
                    old(self).mids_of(q)
                } else if is_prefix_of(q, seg_views_from(path@, i as int)) {
                    Some(Seq::<F>::empty())
                } else {
                    None::<Seq<F>>
                }),
        decreases path@.len() - i,
    {
        let ghost tail = seg_views_from(path@, i as int);
        if i == path.len() {
            let mut more = ms;
            self.middleware.append(&mut more);
            proof {
                assert(tail =~= Seq::<Seq<u8>>::empty());
                assert forall|q: Seq<Seq<u8>>, m2: MethodType|
                    #[trigger] final(self).route_of(q, m2) == old(self).route_of(q, m2) by {
                    if q.len() > 0 {
                        assert(final(self).child(q[0]) == old(self).child(q[0]));
                    }
                }
                assert forall|q: Seq<Seq<u8>>|
                    #[trigger] final(self).mids_of(q) == (if q == tail {
                        Some(mids_or_empty(old(self).mids_of(q)) + ms@)
                    } else if old(self).mids_of(q) is Some {
                        old(self).mids_of(q)
                    } else if is_prefix_of(q, tail) {
                        Some(Seq::<F>::empty())
                    } else {
                        None::<Seq<F>>
                    }) by {
                    if q.len() == 0 {
                        assert(q =~= tail);
                    } else {
                        assert(q != tail);
                        assert(!is_prefix_of(q, tail));
                        assert(final(self).child(q[0]) == old(self).child(q[0]));
                    }
                }
            }
        } else {
            proof {
                lemma_seg_views_step(path@, i as int);
            }
            let ghost tail1 = seg_views_from(path@, i + 1 as int);
            let jopt = self.find_child(path[i].as_slice());
            match jopt {
                Some(j) => {
                    let (key, mut sub) = self.children.remove(j);
                    let ghost old_sub = sub;
                    sub.add_middleware_at(path, i + 1, ms);
                    let ghost new_sub = sub;
                    self.children.insert(j, (key, sub));
                    proof {
                        assert(key@ == path@[i as int]@);
                        assert(self.children@ =~= old(self).children@.update(
                            j as int,
                            (key, new_sub),
                        ));
                        assert forall|k: Seq<u8>| #[trigger]
                            child_assoc(self.children@, k) == (if k == path@[i as int]@ {
                                Some(new_sub)
                            } else {
                                child_assoc(old(self).children@, k)
                            }) by {
                            lemma_child_assoc_update(
                                old(self).children@,
                                j as int,
                                (key, new_sub),
                                k,
                            );
                        }
                        lemma_middleware_step::<F>(
                            *old(self),
                            *self,
                            old_sub,
                            new_sub,
                            path@[i as int]@,
                            tail,
                            tail1,
                            ms@,
                        );
                    }
                }
                None => {
                    let mut sub: Router<F> = Router::new();
                    let ghost old_sub = sub;
                    sub.add_middleware_at(path, i + 1, ms);
                    let ghost new_sub = sub;
                    let key = to_vec_bytes(path[i].as_slice());
                    self.children.push((key, sub));
                    proof {
                        assert(key@ == path@[i as int]@);
                        assert(self.children@ =~= old(self).children@.push((key, new_sub)));
                        assert forall|k: Seq<u8>| #[trigger]
                            child_assoc(self.children@, k) == (if k == path@[i as int]@ {
                                Some(new_sub)
                            } else {
                                child_assoc(old(self).children@, k)
                            }) by {
                            lemma_child_assoc_push(old(self).children@, (key, new_sub), k);
                        }
                        assert forall|q2: Seq<Seq<u8>>, m2: MethodType| #[trigger]
                            old_sub.route_of(q2, m2) is None by {
                            if q2.len() == 0 {
                                assert(ctrl_assoc(old_sub.controllers@, m2) is None);
                            } else {
                                assert(child_assoc(old_sub.children@, q2[0]) is None);
                            }
                        }
                        lemma_middleware_step::<F>(
                            *old(self),
                            *self,
                            old_sub,
                            new_sub,
                            path@[i as int]@,
                            tail,
                            tail1,
                            ms@,
                        );
                    }
                }
            }
        }
    }
}

/// The inductive step shared by both arms of `add_middleware_at`.
#[verifier::spinoff_prover]
proof fn lemma_middleware_step<F>(
    pre: Router<F>,
    post: Router<F>,
    old_sub: Router<F>,
    new_sub: Router<F>,
    key: Seq<u8>,
    tail: Seq<Seq<u8>>,
    tail1: Seq<Seq<u8>>,
    ms: Seq<F>,
)
    requires
        tail.len() >= 1,
        tail[0] == key,
        tail1 == tail.subrange(1, tail.len() as int),
        post.controllers@ == pre.controllers@,
        post.middleware@ == pre.middleware@,
        forall|k: Seq<u8>| #[trigger]
            child_assoc(post.children@, k) == (if k == key {
                Some(new_sub)
            } else {
                child_assoc(pre.children@, k)
            }),
        pre.child(key) is Some ==> pre.child(key) == Some(old_sub),
        pre.child(key) is None ==> (forall|q2: Seq<Seq<u8>>, m2: MethodType| #[trigger]
            old_sub.route_of(q2, m2) is None) && (forall|q2: Seq<Seq<u8>>| #[trigger]
            old_sub.mids_of(q2) == (if q2.len() == 0 {
                Some(Seq::<F>::empty())
            } else {
                None::<Seq<F>>
            })),
        forall|q2: Seq<Seq<u8>>, m2: MethodType|
            #[trigger] new_sub.route_of(q2, m2) == old_sub.route_of(q2, m2),
        forall|q2: Seq<Seq<u8>>|
            #[trigger] new_sub.mids_of(q2) == (if q2 == tail1 {
                Some(mids_or_empty(old_sub.mids_of(q2)) + ms)
            } else if old_sub.mids_of(q2) is Some {
                old_sub.mids_of(q2)
            } else if is_prefix_of(q2, tail1) {
                Some(Seq::<F>::empty())
            } else {
                None::<Seq<F>>
            }),
    ensures
        forall|q: Seq<Seq<u8>>, m2: MethodType|
            #[trigger] post.route_of(q, m2) == pre.route_of(q, m2),
        forall|q: Seq<Seq<u8>>|
            #[trigger] post.mids_of(q) == (if q == tail {
                Some(mids_or_empty(pre.mids_of(q)) + ms)
            } else if pre.mids_of(q) is Some {
                pre.mids_of(q)
            } else if is_prefix_of(q, tail) {
                Some(Seq::<F>::empty())
            } else {
                None::<Seq<F>>
            }),
{
    assert forall|q: Seq<Seq<u8>>, m2: MethodType|
        #[trigger] post.route_of(q, m2) == pre.route_of(q, m2) by {
        if q.len() > 0 {
            let q1 = q.subrange(1, q.len() as int);
            if q[0] == key {
                assert(post.route_of(q, m2) == new_sub.route_of(q1, m2));
                if pre.child(key) is Some {
                    assert(pre.route_of(q, m2) == old_sub.route_of(q1, m2));
                } else {
                    assert(old_sub.route_of(q1, m2) is None);
                }
            } else {
                assert(post.child(q[0]) == pre.child(q[0]));
            }
        }
    }
    assert forall|q: Seq<Seq<u8>>|
        #[trigger] post.mids_of(q) == (if q == tail {
            Some(mids_or_empty(pre.mids_of(q)) + ms)
        } else if pre.mids_of(q) is Some {
            pre.mids_of(q)
        } else if is_prefix_of(q, tail) {
            Some(Seq::<F>::empty())
        } else {
            None::<Seq<F>>
        }) by {
        if q.len() == 0 {
            assert(q != tail);
            assert(pre.mids_of(q) == Some(pre.middleware@));
        } else {
            let q1 = q.subrange(1, q.len() as int);
            if q[0] == key {
                assert(post.mids_of(q) == new_sub.mids_of(q1));
                if q1 == tail1 {
                    assert forall|l: int| 0 <= l < q.len() implies q[l] == tail[l] by {
                        if l >= 1 {
                            assert(q[l] == q1[l - 1]);
                            assert(tail1[l - 1] == tail[l]);
                        }
                    }
                    assert(q =~= tail);
                    if pre.child(key) is Some {
                        assert(pre.mids_of(q) == old_sub.mids_of(q1));
                    } else {
                        assert(pre.mids_of(q) is None);
                        assert(old_sub.mids_of(q1) == (if q1.len() == 0 {
                            Some(Seq::<F>::empty())
                        } else {
                            None::<Seq<F>>
                        }));
                        assert(mids_or_empty(pre.mids_of(q)) =~= mids_or_empty(
                            old_sub.mids_of(q1),
                        ));
                    }
                } else {
                    if q == tail {
                        assert(q1 =~= tail1);
                    }
                    assert(q != tail);
                    if is_prefix_of(q, tail) {
                        assert forall|l: int| 0 <= l < q1.len() implies q1[l] == tail1.subrange(
                            0,
                            q1.len() as int,
                        )[l] by {
                            assert(q1[l] == q[l + 1]);
                            assert(q[l + 1] == tail.subrange(0, q.len() as int)[l + 1]);
                            assert(tail1[l] == tail[l + 1]);
                        }
                        assert(q.len() <= tail.len());
                        assert(q1.len() <= tail1.len());
                        assert(q1 =~= tail1.subrange(0, q1.len() as int));
                        assert(q1 == tail1.subrange(0, q1.len() as int));
                        assert(is_prefix_of(q1, tail1));
                    } else {
                        assert(!is_prefix_of(q1, tail1)) by {
                            if is_prefix_of(q1, tail1) {
                                assert forall|l: int|
                                    0 <= l < q.len() implies q[l] == tail.subrange(
                                    0,
                                    q.len() as int,
                                )[l] by {
                                    if l >= 1 {
                                        assert(q[l] == q1[l - 1]);
                                        assert(q1[l - 1] == tail1.subrange(
                                            0,
                                            q1.len() as int,
                                        )[l - 1]);
                                        assert(tail1[l - 1] == tail[l]);
                                    }
                                }
                                assert(q =~= tail.subrange(0, q.len() as int));
                            }
                        }
                    }
                    if pre.child(key) is Some {
                        assert(pre.mids_of(q) == old_sub.mids_of(q1));
                    } else {
                        assert(pre.mids_of(q) is None);
                        assert(old_sub.mids_of(q1) == (if q1.len() == 0 {
                            Some(Seq::<F>::empty())
                        } else {
                            None::<Seq<F>>
                        }));
                        if q1.len() == 0 {
                            assert(q1 =~= tail1.subrange(0, 0));
                            assert(is_prefix_of(q1, tail1));
                            assert(is_prefix_of(q, tail)) by {
                                assert(q =~= tail.subrange(0, 1));
                            }
                        }
                    }
                }
            } else {
                assert(post.child(q[0]) == pre.child(q[0]));
                assert(q != tail);
                assert(!is_prefix_of(q, tail)) by {
                    if is_prefix_of(q, tail) {
                        assert(q[0] == tail[0]);
                    }
                }
            }
        }
    }
}

/// The inductive step shared by both arms of `register_at`: from the
/// child's contract and the one-key change of the child table, conclude
/// the node's own contract.
#[verifier::spinoff_prover]
proof fn lemma_register_step<F>(
    pre: Router<F>,
    post: Router<F>,
    old_sub: Router<F>,
    new_sub: Router<F>,
    key: Seq<u8>,
    tail: Seq<Seq<u8>>,
    tail1: Seq<Seq<u8>>,
    m: MethodType,
    h: F,
)
    requires
        tail.len() >= 1,
        tail[0] == key,
        tail1 == tail.subrange(1, tail.len() as int),
        post.controllers@ == pre.controllers@,
        post.middleware@ == pre.middleware@,
        forall|k: Seq<u8>| #[trigger]
            child_assoc(post.children@, k) == (if k == key {
                Some(new_sub)
            } else {
                child_assoc(pre.children@, k)
            }),
        pre.child(key) is Some ==> pre.child(key) == Some(old_sub),
        pre.child(key) is None ==> (forall|q2: Seq<Seq<u8>>, m2: MethodType| #[trigger]
            old_sub.route_of(q2, m2) is None) && (forall|q2: Seq<Seq<u8>>| #[trigger]
            old_sub.mids_of(q2) == (if q2.len() == 0 {
                Some(Seq::<F>::empty())
            } else {
                None::<Seq<F>>
            })),
        forall|q2: Seq<Seq<u8>>, m2: MethodType|
            #[trigger] new_sub.route_of(q2, m2) == (if q2 == tail1 && m2 == m {
                Some(h)
            } else {
                old_sub.route_of(q2, m2)
            }),
        forall|q2: Seq<Seq<u8>>|
            #[trigger] new_sub.mids_of(q2) == (if old_sub.mids_of(q2) is Some {
                old_sub.mids_of(q2)
            } else if is_prefix_of(q2, tail1) {
                Some(Seq::<F>::empty())
            } else {
                None::<Seq<F>>
            }),
    ensures
        forall|q: Seq<Seq<u8>>, m2: MethodType|
            #[trigger] post.route_of(q, m2) == (if q == tail && m2 == m {
                Some(h)
            } else {
                pre.route_of(q, m2)
            }),
        forall|q: Seq<Seq<u8>>|
            #[trigger] post.mids_of(q) == (if pre.mids_of(q) is Some {
                pre.mids_of(q)
            } else if is_prefix_of(q, tail) {
                Some(Seq::<F>::empty())
            } else {
                None::<Seq<F>>
            }),
{
    assert forall|q: Seq<Seq<u8>>, m2: MethodType|
        #[trigger] post.route_of(q, m2) == (if q == tail && m2 == m {
            Some(h)
        } else {
            pre.route_of(q, m2)
        }) by {
        if q.len() == 0 {
            assert(q != tail);
        } else {
            let q1 = q.subrange(1, q.len() as int);
            if q[0] == key {
                assert(post.route_of(q, m2) == new_sub.route_of(q1, m2));
                if q1 == tail1 && m2 == m {
                    assert forall|l: int| 0 <= l < q.len() implies q[l] == tail[l] by {
                        if l >= 1 {
                            assert(q[l] == q1[l - 1]);
                            assert(tail1[l - 1] == tail[l]);
                        }
                    }
                    assert(q =~= tail);
                } else {
                    if q == tail {
                        assert(q1 =~= tail1);
                    }
                    assert(!(q == tail && m2 == m));
                    if pre.child(key) is Some {
                        assert(pre.route_of(q, m2) == old_sub.route_of(q1, m2));
                    } else {
                        assert(pre.route_of(q, m2) is None);
                        assert(old_sub.route_of(q1, m2) is None);
                    }
                }
            } else {
                assert(q != tail);
                assert(post.child(q[0]) == pre.child(q[0]));
            }
        }
    }
    assert forall|q: Seq<Seq<u8>>|
        #[trigger] post.mids_of(q) == (if pre.mids_of(q) is Some {
            pre.mids_of(q)
        } else if is_prefix_of(q, tail) {
            Some(Seq::<F>::empty())
        } else {
            None::<Seq<F>>
        }) by {
        if q.len() == 0 {
            assert(pre.mids_of(q) == Some(pre.middleware@));
        } else {
            let q1 = q.subrange(1, q.len() as int);
            if q[0] == key {
                assert(post.mids_of(q) == new_sub.mids_of(q1));
                if is_prefix_of(q, tail) {
                    assert forall|l: int| 0 <= l < q1.len() implies q1[l] == tail1.subrange(
                        0,
                        q1.len() as int,
                    )[l] by {
                        assert(q1[l] == q[l + 1]);
                        assert(q[l + 1] == tail.subrange(0, q.len() as int)[l + 1]);
                        assert(tail1[l] == tail[l + 1]);
                    }
                    assert(q.len() <= tail.len());
                    assert(q1.len() <= tail1.len());
                    assert(q1 =~= tail1.subrange(0, q1.len() as int));
                    assert(q1 == tail1.subrange(0, q1.len() as int));
                    assert(is_prefix_of(q1, tail1));
                } else {
                    assert(!is_prefix_of(q1, tail1)) by {
                        if is_prefix_of(q1, tail1) {
                            assert forall|l: int| 0 <= l < q.len() implies q[l] == tail.subrange(
                                0,
                                q.len() as int,
                            )[l] by {
                                if l >= 1 {
                                    assert(q[l] == q1[l - 1]);
                                    assert(q1[l - 1] == tail1.subrange(0, q1.len() as int)[l - 1]);
                                    assert(tail1[l - 1] == tail[l]);
                                }
                            }
                            assert(q =~= tail.subrange(0, q.len() as int));
                        }
                    }
                }
                if pre.child(key) is Some {
                    assert(pre.mids_of(q) == old_sub.mids_of(q1));
                } else {
                    assert(pre.mids_of(q) is None);
                    assert(old_sub.mids_of(q1) == (if q1.len() == 0 {
                        Some(Seq::<F>::empty())
                    } else {
                        None::<Seq<F>>
                    }));
                    if q1.len() == 0 {
                        assert(is_prefix_of(q1, tail1));
                    }
                }
            } else {
                assert(post.child(q[0]) == pre.child(q[0]));
                assert(!is_prefix_of(q, tail)) by {
                    if is_prefix_of(q, tail) {
                        assert(q[0] == tail[0]);
                    }
                }
            }
        }
    }
}

} // verus!

//! The module tree and the transitive closure of type references.
//!
//! Resolved named types are organized into a prefix tree keyed by the
//! segments of their module paths.  `resolve_types` computes the
//! breadth-first transitive closure of a set of root references: every
//! reachable type appears in the tree exactly once, cycles are
//! harmless, and the processing order is the fixed total order on
//! references, so the same inputs always build the same tree.

use crate::context::ArgumentContext;
use crate::repo::assoc_first;
use crate::repo::assoc_has;
use crate::schema::interface::Argument;
use crate::schema::interface::DataTypes;
use crate::schema::interface::ObjectOptions;
use crate::schema::interface::StringOptions;
use crate::schema::interface::Type;
use crate::schema::interface::Variable;
use crate::text::chars_lt;
use crate::text::cmp_str;
use crate::text::strs_contain;
use crate::text::views_of;
use crate::typeref::lemma_wf_key_eq;
use crate::typeref::type_ref_wf;
use crate::typeref::TypeRefKey;
use vstd::prelude::*;

verus! {

/// A named object type rendered as a struct: its properties in
/// declaration order, optional ones wrapped.
#[derive(Debug, Clone, PartialEq)]
pub struct ObjectTypeContext {
    pub name: String,
    pub properties: Vec<ArgumentContext>,
}

/// A named string-enum type: its enumerated items in declaration order.
#[derive(Debug, Clone, PartialEq)]
pub struct EnumTypeContext {
    pub name: String,
    pub items: Vec<String>,
}

/// A resolved named type is either an object or an enum.
#[derive(Debug, Clone, PartialEq)]
pub enum TypeContext {
    Object(ObjectTypeContext),
    Enum(EnumTypeContext),
}

/// The local name of a resolved type.
pub open spec fn tc_name(tc: TypeContext) -> Seq<char> {
    match tc {
        TypeContext::Object(o) => o.name@,
        TypeContext::Enum(e) => e.name@,
    }
}

/// One node of the module tree: the types whose module path ends here,
/// and the children one segment deeper, keyed by segment.
#[derive(Debug, PartialEq)]
pub struct TypeModuleContext {
    pub children: Vec<(String, TypeModuleContext)>,
    pub objects: Vec<ObjectTypeContext>,
    pub enums: Vec<EnumTypeContext>,
}

/// How many definitions named `name` the node itself holds.
pub open spec fn node_count(t: TypeModuleContext, name: Seq<char>) -> nat {
    count_objects(t.objects@, name) + count_enums(t.enums@, name)
}

pub open spec fn count_objects(objs: Seq<ObjectTypeContext>, name: Seq<char>) -> nat
    decreases objs,
{
    if objs.len() == 0 {
        0
    } else {
        count_objects(objs.drop_last(), name) + (if objs.last().name@ == name {
            1nat
        } else {
            0nat
        })
    }
}

pub open spec fn count_enums(enums: Seq<EnumTypeContext>, name: Seq<char>) -> nat
    decreases enums,
{
    if enums.len() == 0 {
        0
    } else {
        count_enums(enums.drop_last(), name) + (if enums.last().name@ == name {
            1nat
        } else {
            0nat
        })
    }
}

/// How many definitions named `name` stand at `path` below `t`.
pub open spec fn tree_count(t: TypeModuleContext, path: Seq<Seq<char>>, name: Seq<char>) -> nat
    decreases path.len(),
{
    if path.len() == 0 {
        node_count(t, name)
    } else if assoc_has(t.children@, path[0]) {
        tree_count(assoc_first(t.children@, path[0]), path.drop_first(), name)
    } else {
        0
    }
}

/// How many definitions the tree holds under the key's path and name.
pub open spec fn tree_count_key(t: TypeModuleContext, k: TypeRefKey) -> nat {
    tree_count(t, k.path, k.name)
}

/// Child keys are strictly ascending, and children are themselves well
/// formed.
pub open spec fn tree_wf(t: TypeModuleContext) -> bool
    decreases t,
{
    &&& forall|i: int, j: int|
        0 <= i < j < t.children@.len() ==> chars_lt(
            (#[trigger] t.children@[i]).0@,
            (#[trigger] t.children@[j]).0@,
        )
    &&& forall|i: int| 0 <= i < t.children@.len() ==> tree_wf((#[trigger] t.children@[i]).1)
}

/// A tree with no nodes holds nothing.
proof fn lemma_empty_tree_count(t: TypeModuleContext, path: Seq<Seq<char>>, name: Seq<char>)
    requires
        t.children@.len() == 0,
        t.objects@.len() == 0,
        t.enums@.len() == 0,
    ensures
        tree_count(t, path, name) == 0,
{
}

/// Updating the value at the first entry holding a key changes lookups
/// of that key alone.
proof fn lemma_assoc_update<T>(s: Seq<(String, T)>, idx: int, v: (String, T), q: Seq<char>)
    requires
        0 <= idx < s.len(),
        v.0@ == s[idx].0@,
        forall|j: int| 0 <= j < idx ==> (#[trigger] s[j].0@) != s[idx].0@,
    ensures
        assoc_has(s.update(idx, v), q) == assoc_has(s, q),
        q == v.0@ ==> assoc_has(s, q) && assoc_first(s.update(idx, v), q) == v.1,
        q != v.0@ && assoc_has(s, q) ==> assoc_first(s.update(idx, v), q) == assoc_first(s, q),
    decreases idx,
{
    let u = s.update(idx, v);
    assert(assoc_has(u, q) == assoc_has(s, q)) by {
        if assoc_has(u, q) {
            let i = choose|i: int| 0 <= i < u.len() && u[i].0@ == q;
            assert(s[i].0@ == q);
            assert(assoc_has(s, q));
        }
        if assoc_has(s, q) {
            let i = choose|i: int| 0 <= i < s.len() && s[i].0@ == q;
            assert(u[i].0@ == q);
            assert(assoc_has(u, q));
        }
    }
    if idx == 0 {
        assert(u[0] == v);
        if q == v.0@ {
            assert(assoc_first(u, q) == u[0].1);
        } else if assoc_has(s, q) {
            assert(u.drop_first() =~= s.drop_first());
            assert(assoc_first(u, q) == assoc_first(u.drop_first(), q));
            assert(assoc_first(s, q) == assoc_first(s.drop_first(), q));
        }
    } else {
        assert(u[0] == s[0]);
        assert(u.drop_first() =~= s.drop_first().update(idx - 1, v));
        lemma_assoc_update(s.drop_first(), idx - 1, v, q);
        if q == v.0@ {
            assert(s[0].0@ != q);
            assert(assoc_first(u, q) == assoc_first(u.drop_first(), q));
        } else if assoc_has(s, q) {
            if s[0].0@ == q {
                assert(assoc_first(u, q) == u[0].1);
                assert(assoc_first(s, q) == s[0].1);
            } else {
                assert(assoc_first(u, q) == assoc_first(u.drop_first(), q));
                assert(assoc_first(s, q) == assoc_first(s.drop_first(), q));
                assert(assoc_has(s.drop_first(), q)) by {
                    let i = choose|i: int| 0 <= i < s.len() && s[i].0@ == q;
                    assert(i > 0);
                    assert(s.drop_first()[i - 1].0@ == q);
                }
            }
        }
    }
}

/// Inserting an entry under a fresh key changes lookups of that key
/// alone.
proof fn lemma_assoc_insert<T>(s: Seq<(String, T)>, idx: int, v: (String, T), q: Seq<char>)
    requires
        0 <= idx <= s.len(),
        !assoc_has(s, v.0@),
    ensures
        q == v.0@ ==> assoc_has(s.insert(idx, v), q) && assoc_first(s.insert(idx, v), q) == v.1,
        q != v.0@ ==> assoc_has(s.insert(idx, v), q) == assoc_has(s, q),
        q != v.0@ && assoc_has(s, q) ==> assoc_first(s.insert(idx, v), q) == assoc_first(s, q),
    decreases idx,
{
    let u = s.insert(idx, v);
    assert(u.len() == s.len() + 1);
    assert(forall|m: int| 0 <= m < idx ==> u[m] == s[m]);
    assert(u[idx] == v);
    assert(forall|m: int| idx < m < u.len() ==> u[m] == s[m - 1]);
    if q == v.0@ {
        assert(u[idx].0@ == q);
        assert(assoc_has(u, q));
    } else {
        assert(assoc_has(u, q) == assoc_has(s, q)) by {
            if assoc_has(u, q) {
                let i = choose|i: int| 0 <= i < u.len() && u[i].0@ == q;
                if i < idx {
                    assert(s[i].0@ == q);
                } else {
                    assert(i > idx);
                    assert(s[i - 1].0@ == q);
                }
                assert(assoc_has(s, q));
            }
            if assoc_has(s, q) {
                let i = choose|i: int| 0 <= i < s.len() && s[i].0@ == q;
                if i < idx {
                    assert(u[i].0@ == q);
                } else {
                    assert(u[i + 1].0@ == q);
                }
                assert(assoc_has(u, q));
            }
        }
    }
    if idx == 0 {
        assert(u[0] == v);
        if q == v.0@ {
            assert(assoc_first(u, q) == u[0].1);
        } else if assoc_has(s, q) {
            assert(u.drop_first() =~= s);
            assert(assoc_first(u, q) == assoc_first(u.drop_first(), q));
        }
    } else {
        assert(u[0] == s[0]);
        assert(u.drop_first() =~= s.drop_first().insert(idx - 1, v));
        assert(!assoc_has(s.drop_first(), v.0@)) by {
            if assoc_has(s.drop_first(), v.0@) {
                let i = choose|i: int|
                    0 <= i < s.drop_first().len() && s.drop_first()[i].0@ == v.0@;
                assert(s[i + 1].0@ == v.0@);
                assert(assoc_has(s, v.0@));
            }
        }
        lemma_assoc_insert(s.drop_first(), idx - 1, v, q);
        assert(s[0].0@ != v.0@) by {
            if s[0].0@ == v.0@ {
                assert(assoc_has(s, v.0@));
            }
        }
        if q == v.0@ {
            assert(assoc_first(u, q) == assoc_first(u.drop_first(), q));
        } else if assoc_has(s, q) {
            if s[0].0@ == q {
                assert(assoc_first(u, q) == u[0].1);
                assert(assoc_first(s, q) == s[0].1);
            } else {
                assert(assoc_first(u, q) == assoc_first(u.drop_first(), q));
                assert(assoc_first(s, q) == assoc_first(s.drop_first(), q));
                assert(assoc_has(s.drop_first(), q)) by {
                    let i = choose|i: int| 0 <= i < s.len() && s[i].0@ == q;
                    assert(i > 0);
                    assert(s.drop_first()[i - 1].0@ == q);
                }
            }
        }
    }
}

/// Appending an object to a node raises its count for that name by one.
proof fn lemma_count_objects_push(objs: Seq<ObjectTypeContext>, o: ObjectTypeContext, name: Seq<char>)
    ensures
        count_objects(objs.push(o), name) == count_objects(objs, name) + (if o.name@ == name {
            1nat
        } else {
            0nat
        }),
{
    assert(objs.push(o).drop_last() =~= objs);
}

proof fn lemma_count_enums_push(enums: Seq<EnumTypeContext>, e: EnumTypeContext, name: Seq<char>)
    ensures
        count_enums(enums.push(e), name) == count_enums(enums, name) + (if e.name@ == name {
            1nat
        } else {
            0nat
        }),
{
    assert(enums.push(e).drop_last() =~= enums);
}

/// Inserts a resolved definition at the node addressed by the path
/// segments from `depth` on, creating intermediate nodes as needed.
/// Exactly the count of the inserted path and name rises, by one.
pub fn tree_insert(node: TypeModuleContext, path: &Vec<String>, depth: usize, item: TypeContext) -> (r:
    TypeModuleContext)
    requires
        tree_wf(node),
        depth <= path@.len(),
    ensures
        tree_wf(r),
        forall|p: Seq<Seq<char>>, n: Seq<char>| #[trigger]
            tree_count(r, p, n) == tree_count(node, p, n) + (if p == views_of(path@).skip(
                depth as int,
            ) && n == tc_name(item) {
                1nat
            } else {
                0nat
            }),
    decreases path@.len() - depth,
{
    let ghost suffix = views_of(path@).skip(depth as int);
    let ghost iname = tc_name(item);
    if depth == path.len() {
        proof {
            assert(suffix =~= Seq::<Seq<char>>::empty());
        }
        let TypeModuleContext { children, mut objects, mut enums } = node;
        let ghost old_objects = objects@;
        let ghost old_enums = enums@;
        match item {
            TypeContext::Object(o) => {
                objects.push(o);
                proof {
                    assert(objects@.last().name@ == iname);
                    assert forall|n: Seq<char>|
                        count_objects(objects@, n) == count_objects(old_objects, n) + (if n
                            == iname {
                            1nat
                        } else {
                            0nat
                        }) by {
                        assert(objects@.drop_last() =~= old_objects);
                    }
                }
            },
            TypeContext::Enum(e) => {
                enums.push(e);
                proof {
                    assert(enums@.last().name@ == iname);
                    assert forall|n: Seq<char>|
                        count_enums(enums@, n) == count_enums(old_enums, n) + (if n == iname {
                            1nat
                        } else {
                            0nat
                        }) by {
                        assert(enums@.drop_last() =~= old_enums);
                    }
                }
            },
        }
        let r = TypeModuleContext { children, objects, enums };
        proof {
            assert forall|p: Seq<Seq<char>>, n: Seq<char>| #[trigger]
                tree_count(r, p, n) == tree_count(node, p, n) + (if p == suffix && n == tc_name(
                    item,
                ) {
                    1nat
                } else {
                    0nat
                }) by {
                if p.len() == 0 {
                    assert(p =~= suffix);
                    assert(node_count(r, n) == node_count(node, n) + (if n == iname {
                        1nat
                    } else {
                        0nat
                    }));
                } else {
                    assert(p != suffix);
                    assert(r.children@ == node.children@);
                    if assoc_has(node.children@, p[0]) {
                        assert(tree_count(r, p, n) == tree_count(
                            assoc_first(node.children@, p[0]),
                            p.drop_first(),
                            n,
                        ));
                    }
                }
            }
        }
        return r;
    }

    // Find the child for this segment, or where to put a new one.
    let segment = &path[depth];
    let TypeModuleContext { mut children, objects, enums } = node;
    let ghost old_children = children@;
    let mut idx: usize = 0;
    while idx < children.len() && matches_lt(&children[idx].0, segment)
        invariant
            children@ == old_children,
            0 <= idx <= children@.len(),
            forall|j: int| 0 <= j < idx ==> chars_lt((#[trigger] children@[j].0@), segment@),
        decreases children@.len() - idx,
    {
        idx = idx + 1;
    }
    let found = idx < children.len() && crate::text::str_eq(children[idx].0.as_str(), segment.as_str());
    if found {
        proof {
            assert forall|j: int| 0 <= j < idx implies (#[trigger] old_children[j].0@)
                != old_children[idx as int].0@ by {
                crate::text::lemma_chars_lt_asymmetric(old_children[j].0@, segment@);
            }
        }
        let (key, sub) = children.remove(idx);
        let ghost sub_spec = sub;
        proof {
            assert(tree_wf(old_children[idx as int].1));
        }
        let sub2 = tree_insert(sub, path, depth + 1, item);
        children.insert(idx, (key, sub2));
        proof {
            assert(children@ =~= old_children.update(idx as int, (key, sub2)));
        }
        let r = TypeModuleContext { children, objects, enums };
        proof {
            assert(r.children@ == old_children.update(idx as int, (key, sub2)));
            // well-formedness: same keys, children still sorted
            assert forall|i: int, j: int|
                0 <= i < j < r.children@.len() implies chars_lt(
                (#[trigger] r.children@[i]).0@,
                (#[trigger] r.children@[j]).0@,
            ) by {
                assert(r.children@[i].0@ == old_children[i].0@);
                assert(r.children@[j].0@ == old_children[j].0@);
            }
            assert forall|i: int| 0 <= i < r.children@.len() implies tree_wf(
                (#[trigger] r.children@[i]).1,
            ) by {
                if i != idx {
                    assert(r.children@[i].1 == old_children[i].1);
                }
            }
            assert(tree_wf(r));
            assert forall|p: Seq<Seq<char>>, n: Seq<char>| #[trigger]
                tree_count(r, p, n) == tree_count(node, p, n) + (if p == suffix && n == tc_name(
                    item,
                ) {
                    1nat
                } else {
                    0nat
                }) by {
                lemma_assoc_update(old_children, idx as int, (key, sub2), if p.len() == 0 {
                    key@
                } else {
                    p[0]
                });
                assert(key@ == segment@);
                assert(node.children@ == old_children);
                assert(suffix.len() == path@.len() - depth);
                assert(suffix[0] == segment@);
                if p.len() == 0 {
                    assert(node_count(r, n) == node_count(node, n));
                    assert(p != suffix);
                } else {
                    if p[0] == key@ {
                        assert(assoc_has(old_children, p[0]));
                        assert(assoc_has(r.children@, p[0]));
                        assert(assoc_first(r.children@, p[0]) == sub2);
                        assert(assoc_first(old_children, p[0]) == sub_spec) by {
                            crate::repo::lemma_assoc_first_at(old_children, p[0], idx as int);
                        }
                        assert(tree_count(r, p, n) == tree_count(sub2, p.drop_first(), n));
                        assert(tree_count(node, p, n) == tree_count(sub_spec, p.drop_first(), n));
                        assert(tree_count(sub2, p.drop_first(), n) == tree_count(
                            sub_spec,
                            p.drop_first(),
                            n,
                        ) + (if p.drop_first() == views_of(path@).skip(depth + 1 as int) && n
                            == tc_name(item) {
                            1nat
                        } else {
                            0nat
                        }));
                        assert(views_of(path@).skip(depth as int) =~= seq![segment@] + views_of(
                            path@,
                        ).skip(depth + 1 as int));
                        if p == suffix && n == tc_name(item) {
                            assert(p.drop_first() =~= views_of(path@).skip(depth + 1 as int));
                        } else {
                            assert(!(p.drop_first() == views_of(path@).skip(depth + 1 as int) && n
                                == tc_name(item))) by {
                                if p.drop_first() == views_of(path@).skip(depth + 1 as int) && n
                                    == tc_name(item) {
                                    assert(p =~= seq![p[0]] + p.drop_first());
                                    assert(p =~= suffix);
                                }
                            }
                        }
                    } else {
                        if assoc_has(old_children, p[0]) {
                            assert(assoc_first(r.children@, p[0]) == assoc_first(
                                old_children,
                                p[0],
                            ));
                            assert(tree_count(r, p, n) == tree_count(
                                assoc_first(old_children, p[0]),
                                p.drop_first(),
                                n,
                            ));
                        } else {
                            assert(!assoc_has(r.children@, p[0]));
                        }
                        assert(p != suffix);
                    }
                }
            }
        }
        return r;
    }
    // No child holds this segment yet.
    proof {
        assert(!assoc_has(old_children, segment@)) by {
            if assoc_has(old_children, segment@) {
                let i = choose|i: int|
                    0 <= i < old_children.len() && old_children[i].0@ == segment@;
                if i < idx {
                    crate::text::lemma_chars_lt_asymmetric(old_children[i].0@, segment@);
                    assert(false);
                } else if i == idx {
                    assert(false);
                } else {
                    // children sorted: children[idx] < children[i] == segment,
                    // yet the scan stopped because !(children[idx] < segment)
                    if idx < old_children.len() {
                        crate::text::lemma_chars_lt_connected(old_children[idx as int].0@, segment@);
                        assert(false);
                    } else {
                        assert(false);
                    }
                }
            }
        }
    }
    proof {
        if idx < old_children.len() && !chars_lt(segment@, old_children[idx as int].0@) {
            crate::text::lemma_chars_lt_connected(old_children[idx as int].0@, segment@);
            assert(false);
        }
        assert forall|j: int| idx <= j < old_children.len() implies chars_lt(
            segment@,
            (#[trigger] old_children[j].0@),
        ) by {
            if j > idx {
                crate::text::lemma_chars_lt_transitive(
                    segment@,
                    old_children[idx as int].0@,
                    old_children[j].0@,
                );
            }
        }
    }
    let empty_node = TypeModuleContext {
        children: Vec::new(),
        objects: Vec::new(),
        enums: Vec::new(),
    };
    proof {
        assert(tree_wf(empty_node));
    }
    let ghost empty_ghost = empty_node;
    let sub2 = tree_insert(empty_node, path, depth + 1, item);
    let key = segment.clone();
    let ghost entry = (key, sub2);
    children.insert(idx, (key, sub2));
    proof {
        assert(children@ == old_children.insert(idx as int, entry));
    }
    let r = TypeModuleContext { children, objects, enums };
    proof {
        let now = r.children@;
        assert(now == old_children.insert(idx as int, entry));
        assert(forall|m: int| 0 <= m < idx ==> now[m] == old_children[m]);
        assert(now[idx as int] == entry);
        assert(forall|m: int| idx < m < now.len() ==> now[m] == old_children[m - 1]);
        assert forall|i: int, j: int| 0 <= i < j < now.len() implies chars_lt(
            (#[trigger] now[i]).0@,
            (#[trigger] now[j]).0@,
        ) by {
            if j < idx {
            } else if j == idx {
                assert(chars_lt(old_children[i].0@, segment@));
            } else if i < idx {
                assert(chars_lt(old_children[i].0@, old_children[j - 1].0@) || chars_lt(
                    old_children[i].0@,
                    segment@,
                ));
            } else if i == idx {
                assert(chars_lt(segment@, old_children[j - 1].0@));
            } else {
                assert(chars_lt(old_children[i - 1].0@, old_children[j - 1].0@));
            }
        }
        assert forall|i: int| 0 <= i < now.len() implies tree_wf((#[trigger] now[i]).1) by {
            if i < idx {
                assert(tree_wf(old_children[i].1));
            } else if i > idx {
                assert(tree_wf(old_children[i - 1].1));
            }
        }
        assert(tree_wf(r));
        assert forall|p: Seq<Seq<char>>, n: Seq<char>| #[trigger]
            tree_count(r, p, n) == tree_count(node, p, n) + (if p == suffix && n == tc_name(item) {
                1nat
            } else {
                0nat
            }) by {
            lemma_assoc_insert(old_children, idx as int, entry, if p.len() == 0 {
                entry.0@
            } else {
                p[0]
            });
            assert(node.children@ == old_children);
            assert(suffix.len() == path@.len() - depth);
            assert(suffix[0] == segment@);
            if p.len() == 0 {
                assert(node_count(r, n) == node_count(node, n));
                assert(p != suffix);
            } else {
                if p[0] == segment@ {
                    assert(assoc_has(now, p[0]));
                    assert(assoc_first(now, p[0]) == sub2);
                    assert(!assoc_has(old_children, p[0]));
                    assert(tree_count(node, p, n) == 0);
                    lemma_empty_tree_count(empty_ghost, p.drop_first(), n);
                    assert(tree_count(r, p, n) == tree_count(sub2, p.drop_first(), n));
                    assert(tree_count(sub2, p.drop_first(), n) == tree_count(
                        empty_ghost,
                        p.drop_first(),
                        n,
                    ) + (if p.drop_first() == views_of(path@).skip(depth + 1 as int) && n
                        == tc_name(item) {
                        1nat
                    } else {
                        0nat
                    }));
                    assert(views_of(path@).skip(depth as int) =~= seq![segment@] + views_of(
                        path@,
                    ).skip(depth + 1 as int));
                    if p == suffix && n == tc_name(item) {
                        assert(p.drop_first() =~= views_of(path@).skip(depth + 1 as int));
                    } else {
                        assert(!(p.drop_first() == views_of(path@).skip(depth + 1 as int) && n
                            == tc_name(item))) by {
                            if p.drop_first() == views_of(path@).skip(depth + 1 as int) && n
                                == tc_name(item) {
                                assert(p =~= seq![p[0]] + p.drop_first());
                                assert(p =~= suffix);
                            }
                        }
                    }
                } else {
                    if assoc_has(old_children, p[0]) {
                        assert(assoc_first(now, p[0]) == assoc_first(old_children, p[0]));
                        assert(tree_count(r, p, n) == tree_count(
                            assoc_first(old_children, p[0]),
                            p.drop_first(),
                            n,
                        ));
                    } else {
                        assert(!assoc_has(now, p[0]));
                    }
                    assert(p != suffix);
                }
            }
        }
    }
    return r;
}

/// Whether `a` comes strictly before `b` in segment order.
fn matches_lt(a: &String, b: &String) -> (r: bool)
    ensures
        r == chars_lt(a@, b@),
{
    matches!(cmp_str(a.as_str(), b.as_str()), core::cmp::Ordering::Less)
}

// ---- Resolving one reference against its data-type document ----

/// The key's document lives in exactly one root and declares the name.
pub open spec fn def_exists(roots: Seq<crate::repo::SearchRoot>, t: TypeRefKey) -> bool {
    &&& crate::repo::data_types_count(roots, t.module) == 1
    &&& assoc_has(crate::repo::repo_data_types(roots, t.module).types@, t.name)
}

/// The definition the key resolves to.
pub open spec fn def_of(roots: Seq<crate::repo::SearchRoot>, t: TypeRefKey) -> Variable {
    assoc_first(crate::repo::repo_data_types(roots, t.module).types@, t.name)
}

/// The key resolves cleanly: its definition exists, is an object whose
/// properties' references all parse, or a string enum with items.
pub open spec fn def_ok(roots: Seq<crate::repo::SearchRoot>, t: TypeRefKey) -> bool {
    &&& def_exists(roots, t)
    &&& match def_of(roots, t).arg {
        Argument::Single(Type::Object(o)) => crate::context::props_refs_ok(o.properties@),
        Argument::Single(Type::String(o)) => o.enum_items is Some,
        _ => false,
    }
}

/// The references the key's definition contributes to the closure.
pub open spec fn def_ref_keys(roots: Seq<crate::repo::SearchRoot>, t: TypeRefKey) -> Set<
    TypeRefKey,
> {
    match def_of(roots, t).arg {
        Argument::Single(Type::Object(o)) => crate::context::props_ref_keys(o.properties@),
        _ => Set::empty(),
    }
}

/// A flattened property agrees with its declaration; its type is
/// wrapped as optional exactly when the name is not required.
pub open spec fn prop_ctx_matches(
    c: ArgumentContext,
    name: Seq<char>,
    v: Variable,
    required: Seq<String>,
) -> bool {
    &&& c.name@ == name
    &&& crate::context::opt_chars(c.description) == crate::context::opt_chars(v.description)
    &&& c.data_type@ == (if strs_contain(required, name) {
        crate::context::arg_type_name(v.arg)
    } else {
        "Option<"@ + crate::context::arg_type_name(v.arg) + ">"@
    })
}

/// The rendered object agrees with the object definition.
pub open spec fn object_ctx_matches(oc: ObjectTypeContext, t: TypeRefKey, o: ObjectOptions) -> bool {
    &&& oc.name@ == t.name
    &&& oc.properties@.len() == o.properties@.len()
    &&& forall|i: int|
        0 <= i < o.properties@.len() ==> prop_ctx_matches(
            #[trigger] oc.properties@[i],
            o.properties@[i].0@,
            o.properties@[i].1,
            o.required@,
        )
}

/// The rendered enum agrees with the string definition.
pub open spec fn enum_ctx_matches(ec: EnumTypeContext, t: TypeRefKey, o: StringOptions) -> bool {
    &&& ec.name@ == t.name
    &&& o.enum_items matches Some(items) && views_of(ec.items@) == views_of(items@)
}

/// The rendered definition agrees with the declared one.
pub open spec fn def_ctx_matches(tc: TypeContext, t: TypeRefKey, v: Variable) -> bool {
    match (tc, v.arg) {
        (TypeContext::Object(oc), Argument::Single(Type::Object(o))) => object_ctx_matches(
            oc,
            t,
            o,
        ),
        (TypeContext::Enum(ec), Argument::Single(Type::String(o))) => enum_ctx_matches(ec, t, o),
        _ => false,
    }
}

/// Resolves one reference: loads its data-type document, looks the
/// local name up, renders the definition as an object or an enum, and
/// adds the references of the definition's properties to the working
/// set.  Fails exactly when the document or name is missing, a
/// property's reference is bad, or the definition is neither an object
/// nor a string enum with items.
pub fn type_context_from_ref(
    r: &crate::typeref::TypeRef,
    repo: &crate::repo::YamlRepo,
    type_refs: &mut Vec<crate::typeref::TypeRef>,
) -> (res: Result<TypeContext, crate::Error>)
    requires
        crate::refset::refs_sorted(old(type_refs)@),
        crate::refset::refs_wf(old(type_refs)@),
        type_ref_wf(r@),
    ensures
        crate::refset::refs_sorted(final (type_refs)@),
        crate::refset::refs_wf(final (type_refs)@),
        crate::refset::key_set(old(type_refs)@).subset_of(crate::refset::key_set(
            final (type_refs)@,
        )),
        match res {
            Ok(tc) => {
                &&& def_ok(repo.roots@, r@)
                &&& def_ctx_matches(tc, r@, def_of(repo.roots@, r@))
                &&& crate::refset::key_set(final (type_refs)@) == crate::refset::key_set(
                    old(type_refs)@,
                ) + def_ref_keys(repo.roots@, r@)
            },
            Err(e) => {
                &&& !def_ok(repo.roots@, r@)
                &&& (e is NotFound || e is Ambiguous || e is MalformedReference
                    || e is SchemaConflict)
                &&& crate::refset::key_set(final (type_refs)@).subset_of(
                    crate::refset::key_set(old(type_refs)@) + def_ref_keys(repo.roots@, r@),
                )
            },
        },
{
    let doc = match repo.get_data_types(r.module.as_str()) {
        Ok(d) => d,
        Err(e) => {
            return Err(e);
        },
    };
    let type_descr = match crate::repo::assoc_get(&doc.types, r.local_name.as_str()) {
        Some(v) => v,
        None => {
            let mut what = r.module.clone();
            what.append("#/");
            what.append(r.local_name.as_str());
            return Err(crate::Error::NotFound(what));
        },
    };
    proof {
        assert(*type_descr == def_of(repo.roots@, r@));
    }
    match &type_descr.arg {
        Argument::Single(t) => {
            match t {
                Type::Object(o) => {
                    let ghost props = o.properties@;
                    let mut properties: Vec<ArgumentContext> = Vec::new();
                    let mut i: usize = 0;
                    while i < o.properties.len()
                        invariant
                            crate::refset::refs_sorted(type_refs@),
                            crate::refset::refs_wf(type_refs@),
                            0 <= i <= props.len(),
                            props == o.properties@,
                            def_exists(repo.roots@, r@),
                            def_of(repo.roots@, r@).arg == Argument::Single(Type::Object(*o)),
                            type_ref_wf(r@),
                            properties@.len() == i,
                            crate::context::props_refs_ok(props.take(i as int)),
                            forall|j: int|
                                0 <= j < i ==> prop_ctx_matches(
                                    #[trigger] properties@[j],
                                    props[j].0@,
                                    props[j].1,
                                    o.required@,
                                ),
                            crate::refset::key_set(type_refs@) == crate::refset::key_set(
                                old(type_refs)@,
                            ) + crate::context::props_ref_keys(props.take(i as int)),
                        decreases props.len() - i,
                    {
                        proof {
                            assert(props.take(i + 1 as int).drop_last() =~= props.take(i as int));
                            assert(props.take(i + 1 as int).last() == props[i as int]);
                        }
                        let dt = match crate::context::as_typename(
                            &o.properties[i].1.arg,
                            type_refs,
                        ) {
                            Ok(s) => s,
                            Err(e) => {
                                proof {
                                    if crate::context::props_refs_ok(props) {
                                        crate::context::lemma_props_refs_ok_index(props, i as int);
                                    }
                                    crate::context::lemma_props_ref_keys_prefix(props, i as int);
                                    crate::context::lemma_props_ref_keys_prefix(
                                        props,
                                        i + 1 as int,
                                    );
                                }
                                return Err(e);
                            },
                        };
                        let prop_name = o.properties[i].0.clone();
                        let required = crate::text::contains_string(
                            &o.required,
                            o.properties[i].0.as_str(),
                        );
                        let data_type = if !required {
                            let mut s = String::from_str("Option<");
                            s.append(dt.as_str());
                            s.append(">");
                            s
                        } else {
                            dt
                        };
                        properties.push(
                            ArgumentContext {
                                name: prop_name,
                                description: crate::context::clone_opt_string(
                                    &o.properties[i].1.description,
                                ),
                                data_type,
                            },
                        );
                        i = i + 1;
                    }
                    proof {
                        assert(props.take(props.len() as int) =~= props);
                    }
                    Ok(
                        TypeContext::Object(
                            ObjectTypeContext { name: r.local_name.clone(), properties },
                        ),
                    )
                },
                Type::String(o) => {
                    match &o.enum_items {
                        Option::Some(items) => {
                            proof {
                                assert(crate::refset::key_set(type_refs@)
                                    =~= crate::refset::key_set(type_refs@) + def_ref_keys(
                                    repo.roots@,
                                    r@,
                                ));
                            }
                            Ok(
                                TypeContext::Enum(
                                    EnumTypeContext {
                                        name: r.local_name.clone(),
                                        items: crate::text::clone_string_vec(items),
                                    },
                                ),
                            )
                        },
                        Option::None => Err(crate::Error::SchemaConflict(r.local_name.clone())),
                    }
                },
                _ => Err(crate::Error::SchemaConflict(r.local_name.clone())),
            }
        },
        Argument::Multiple(_) => Err(crate::Error::SchemaConflict(r.local_name.clone())),
    }
}

// ---- Reachability through the reference graph ----

/// The definition of `a` exists and references `b`.
pub open spec fn step_ref(roots: Seq<crate::repo::SearchRoot>, a: TypeRefKey, b: TypeRefKey) -> bool {
    def_exists(roots, a) && def_ref_keys(roots, a).contains(b)
}

/// Every link of the chain is a reference step.
pub open spec fn chain_ok(roots: Seq<crate::repo::SearchRoot>, c: Seq<TypeRefKey>) -> bool {
    forall|i: int| 0 <= i < c.len() - 1 ==> step_ref(roots, #[trigger] c[i], c[i + 1])
}

/// `t` can be reached from the starting keys by following references.
pub open spec fn reachable(
    roots: Seq<crate::repo::SearchRoot>,
    from: Set<TypeRefKey>,
    t: TypeRefKey,
) -> bool {
    exists|c: Seq<TypeRefKey>|
        c.len() >= 1 && from.contains(c[0]) && c.last() == t && #[trigger] chain_ok(roots, c)
}

pub proof fn lemma_reachable_base(
    roots: Seq<crate::repo::SearchRoot>,
    from: Set<TypeRefKey>,
    t: TypeRefKey,
)
    requires
        from.contains(t),
    ensures
        reachable(roots, from, t),
{
    let c = seq![t];
    assert(c.last() == t);
    assert(chain_ok(roots, c));
}

pub proof fn lemma_reachable_step(
    roots: Seq<crate::repo::SearchRoot>,
    from: Set<TypeRefKey>,
    a: TypeRefKey,
    b: TypeRefKey,
)
    requires
        reachable(roots, from, a),
        step_ref(roots, a, b),
    ensures
        reachable(roots, from, b),
{
    let c = choose|c: Seq<TypeRefKey>|
        c.len() >= 1 && from.contains(c[0]) && c.last() == a && #[trigger] chain_ok(roots, c);
    let c2 = c.push(b);
    assert(c2[0] == c[0]);
    assert(c2.last() == b);
    assert(chain_ok(roots, c2)) by {
        assert forall|i: int| 0 <= i < c2.len() - 1 implies step_ref(
            roots,
            #[trigger] c2[i],
            c2[i + 1],
        ) by {
            if i < c.len() - 1 {
                assert(c2[i] == c[i]);
                assert(c2[i + 1] == c[i + 1]);
                assert(step_ref(roots, c[i], c[i + 1]));
            } else {
                assert(c2[i] == c.last());
                assert(c2[i + 1] == b);
            }
        }
    }
}

proof fn lemma_chain_in_closed(
    roots: Seq<crate::repo::SearchRoot>,
    c: Seq<TypeRefKey>,
    dset: Set<TypeRefKey>,
    i: int,
)
    requires
        chain_ok(roots, c),
        c.len() >= 1,
        dset.contains(c[0]),
        forall|a: TypeRefKey, b: TypeRefKey|
            dset.contains(a) && #[trigger] step_ref(roots, a, b) ==> dset.contains(b),
        0 <= i < c.len(),
    ensures
        dset.contains(c[i]),
    decreases i,
{
    if i > 0 {
        lemma_chain_in_closed(roots, c, dset, i - 1);
        assert(step_ref(roots, c[i - 1], c[i]));
    }
}

/// A set that holds the start and is closed under reference steps holds
/// everything reachable.
pub proof fn lemma_reachable_in_closed(
    roots: Seq<crate::repo::SearchRoot>,
    from: Set<TypeRefKey>,
    dset: Set<TypeRefKey>,
    t: TypeRefKey,
)
    requires
        reachable(roots, from, t),
        from.subset_of(dset),
        forall|a: TypeRefKey, b: TypeRefKey|
            dset.contains(a) && #[trigger] step_ref(roots, a, b) ==> dset.contains(b),
    ensures
        dset.contains(t),
{
    let c = choose|c: Seq<TypeRefKey>|
        c.len() >= 1 && from.contains(c[0]) && c.last() == t && #[trigger] chain_ok(roots, c);
    lemma_chain_in_closed(roots, c, dset, c.len() - 1);
}

// ---- Every existing definition, as a finite pool of keys ----

/// The keys declared by one data-type document.
pub open spec fn doc_keys(docname: Seq<char>, types: Seq<(String, Variable)>) -> Seq<TypeRefKey> {
    types.map_values(
        |e: (String, Variable)|
            TypeRefKey { module: docname, path: crate::text::split_char(docname, '/'), name: e.0@ },
    )
}

/// The keys declared by a root's data-type documents.
pub open spec fn table_keys(docs: Seq<(String, DataTypes)>) -> Seq<TypeRefKey>
    decreases docs,
{
    if docs.len() == 0 {
        Seq::empty()
    } else {
        table_keys(docs.drop_last()) + doc_keys(docs.last().0@, docs.last().1.types@)
    }
}

/// The keys declared anywhere in the repository.
pub open spec fn repo_keys(roots: Seq<crate::repo::SearchRoot>) -> Seq<TypeRefKey>
    decreases roots,
{
    if roots.len() == 0 {
        Seq::empty()
    } else {
        repo_keys(roots.drop_last()) + table_keys(roots.last().data_types@)
    }
}

proof fn lemma_table_keys_contains(docs: Seq<(String, DataTypes)>, j: int, k: TypeRefKey)
    requires
        0 <= j < docs.len(),
        doc_keys(docs[j].0@, docs[j].1.types@).contains(k),
    ensures
        table_keys(docs).contains(k),
    decreases docs.len(),
{
    if j == docs.len() - 1 {
        let left = table_keys(docs.drop_last());
        let right = doc_keys(docs.last().0@, docs.last().1.types@);
        let e = choose|e: int| 0 <= e < right.len() && right[e] == k;
        assert(table_keys(docs)[left.len() + e] == k);
    } else {
        assert(docs.drop_last()[j] == docs[j]);
        lemma_table_keys_contains(docs.drop_last(), j, k);
        let left = table_keys(docs.drop_last());
        let e = choose|e: int| 0 <= e < left.len() && left[e] == k;
        assert(table_keys(docs)[e] == k);
    }
}

proof fn lemma_repo_keys_contains(roots: Seq<crate::repo::SearchRoot>, w: int, k: TypeRefKey)
    requires
        0 <= w < roots.len(),
        table_keys(roots[w].data_types@).contains(k),
    ensures
        repo_keys(roots).contains(k),
    decreases roots.len(),
{
    if w == roots.len() - 1 {
        let left = repo_keys(roots.drop_last());
        let right = table_keys(roots.last().data_types@);
        let e = choose|e: int| 0 <= e < right.len() && right[e] == k;
        assert(repo_keys(roots)[left.len() + e] == k);
    } else {
        assert(roots.drop_last()[w] == roots[w]);
        lemma_repo_keys_contains(roots.drop_last(), w, k);
        let left = repo_keys(roots.drop_last());
        let e = choose|e: int| 0 <= e < left.len() && left[e] == k;
        assert(repo_keys(roots)[e] == k);
    }
}

proof fn lemma_assoc_first_witness<T>(s: Seq<(String, T)>, q: Seq<char>)
    requires
        assoc_has(s, q),
    ensures
        exists|d: int|
            0 <= d < s.len() && (#[trigger] s[d].0@) == q && s[d].1 == assoc_first(s, q),
    decreases s.len(),
{
    if s[0].0@ == q {
        assert(s[0].1 == assoc_first(s, q));
    } else {
        assert(assoc_has(s.drop_first(), q)) by {
            let i = choose|i: int| 0 <= i < s.len() && s[i].0@ == q;
            assert(s.drop_first()[i - 1].0@ == q);
        }
        lemma_assoc_first_witness(s.drop_first(), q);
        let d = choose|d: int|
            0 <= d < s.drop_first().len() && (#[trigger] s.drop_first()[d].0@) == q
                && s.drop_first()[d].1 == assoc_first(s.drop_first(), q);
        assert(s[d + 1].0@ == q);
        assert(s[d + 1].1 == assoc_first(s, q));
    }
}

proof fn lemma_data_count_pos(tables: Seq<Seq<(String, DataTypes)>>, name: Seq<char>)
    requires
        crate::repo::table_count(tables, name) >= 1,
    ensures
        exists|w: int| 0 <= w < tables.len() && assoc_has(#[trigger] tables[w], name),
    decreases tables.len(),
{
    if assoc_has(tables.last(), name) {
        assert(tables[tables.len() - 1] == tables.last());
    } else {
        lemma_data_count_pos(tables.drop_last(), name);
        let w = choose|w: int|
            0 <= w < tables.drop_last().len() && assoc_has(#[trigger] tables.drop_last()[w], name);
        assert(tables[w] == tables.drop_last()[w]);
    }
}

proof fn lemma_first_having_data(roots: Seq<crate::repo::SearchRoot>, name: Seq<char>)
    requires
        exists|w: int| 0 <= w < roots.len() && assoc_has((#[trigger] roots[w]).data_types@, name),
    ensures
        exists|w: int|
            0 <= w < roots.len() && assoc_has((#[trigger] roots[w]).data_types@, name)
                && crate::repo::repo_data_types(roots, name) == assoc_first(
                roots[w].data_types@,
                name,
            ),
    decreases roots.len(),
{
    if assoc_has(roots[0].data_types@, name) {
    } else {
        assert(exists|w: int|
            0 <= w < roots.drop_first().len() && assoc_has(
                (#[trigger] roots.drop_first()[w]).data_types@,
                name,
            )) by {
            let w = choose|w: int|
                0 <= w < roots.len() && assoc_has((#[trigger] roots[w]).data_types@, name);
            assert(w >= 1);
            assert(roots.drop_first()[w - 1] == roots[w]);
        }
        lemma_first_having_data(roots.drop_first(), name);
        let w = choose|w: int|
            0 <= w < roots.drop_first().len() && assoc_has(
                (#[trigger] roots.drop_first()[w]).data_types@,
                name,
            ) && crate::repo::repo_data_types(roots.drop_first(), name) == assoc_first(
                roots.drop_first()[w].data_types@,
                name,
            );
        assert(roots[w + 1] == roots.drop_first()[w]);
    }
}

/// Any well-formed key whose definition exists is in the pool.
pub proof fn lemma_def_in_repo_keys(roots: Seq<crate::repo::SearchRoot>, t: TypeRefKey)
    requires
        def_exists(roots, t),
        type_ref_wf(t),
    ensures
        repo_keys(roots).contains(t),
{
    lemma_data_count_pos(crate::repo::data_type_tables(roots), t.module);
    assert(exists|w: int|
        0 <= w < roots.len() && assoc_has((#[trigger] roots[w]).data_types@, t.module)) by {
        let w = choose|w: int|
            0 <= w < crate::repo::data_type_tables(roots).len() && assoc_has(
                #[trigger] crate::repo::data_type_tables(roots)[w],
                t.module,
            );
        assert(crate::repo::data_type_tables(roots)[w] == roots[w].data_types@);
    }
    lemma_first_having_data(roots, t.module);
    let w = choose|w: int|
        0 <= w < roots.len() && assoc_has((#[trigger] roots[w]).data_types@, t.module)
            && crate::repo::repo_data_types(roots, t.module) == assoc_first(
            roots[w].data_types@,
            t.module,
        );
    lemma_assoc_first_witness(roots[w].data_types@, t.module);
    let d = choose|d: int|
        0 <= d < roots[w].data_types@.len() && (#[trigger] roots[w].data_types@[d].0@) == t.module
            && roots[w].data_types@[d].1 == assoc_first(roots[w].data_types@, t.module);
    let doc = roots[w].data_types@[d].1;
    assert(doc == crate::repo::repo_data_types(roots, t.module));
    let e = choose|e: int| 0 <= e < doc.types@.len() && (#[trigger] doc.types@[e].0@) == t.name;
    let dk = doc_keys(roots[w].data_types@[d].0@, doc.types@);
    assert(dk[e] == TypeRefKey {
        module: t.module,
        path: crate::text::split_char(t.module, '/'),
        name: t.name,
    });
    assert(dk[e] == t);
    assert(dk.contains(t));
    lemma_table_keys_contains(roots[w].data_types@, d, t);
    lemma_repo_keys_contains(roots, w, t);
}

/// The references contributed by the definitions of a list of keys.
pub open spec fn defs_keys_of(
    roots: Seq<crate::repo::SearchRoot>,
    s: Seq<crate::typeref::TypeRef>,
) -> Set<TypeRefKey>
    decreases s,
{
    if s.len() == 0 {
        Set::empty()
    } else {
        defs_keys_of(roots, s.drop_last()) + def_ref_keys(roots, s.last()@)
    }
}

proof fn lemma_defs_keys_member(
    roots: Seq<crate::repo::SearchRoot>,
    s: Seq<crate::typeref::TypeRef>,
    j: int,
)
    requires
        0 <= j < s.len(),
    ensures
        def_ref_keys(roots, s[j]@).subset_of(defs_keys_of(roots, s)),
    decreases s.len(),
{
    if j < s.len() - 1 {
        lemma_defs_keys_member(roots, s.drop_last(), j);
        assert(s.drop_last()[j] == s[j]);
    }
}

/// A sorted, well-formed list of references whose definitions all exist
/// is no longer than the pool of declared keys.
pub proof fn lemma_done_bound(roots: Seq<crate::repo::SearchRoot>, done: Seq<crate::typeref::TypeRef>)
    requires
        crate::refset::refs_sorted(done),
        crate::refset::refs_wf(done),
        forall|i: int| 0 <= i < done.len() ==> def_exists(roots, (#[trigger] done[i]@)),
    ensures
        done.len() <= repo_keys(roots).len(),
{
    broadcast use vstd::seq_lib::seq_to_set_is_finite;

    let keys = crate::refset::ref_keys(done);
    assert(keys.no_duplicates()) by {
        assert forall|i: int, j: int|
            0 <= i < keys.len() && 0 <= j < keys.len() && i != j implies keys[i] != keys[j] by {
            if i < j {
                crate::refset::lemma_ref_lt_irreflexive(done[i]@);
            } else {
                crate::refset::lemma_ref_lt_irreflexive(done[j]@);
            }
        }
    }
    keys.unique_seq_to_set();
    assert(keys.to_set().subset_of(repo_keys(roots).to_set())) by {
        assert forall|k: TypeRefKey| keys.to_set().contains(k) implies repo_keys(
            roots,
        ).to_set().contains(k) by {
            let i = choose|i: int| 0 <= i < keys.len() && keys[i] == k;
            lemma_def_in_repo_keys(roots, done[i]@);
        }
    }
    vstd::set_lib::lemma_len_subset(keys.to_set(), repo_keys(roots).to_set());
    repo_keys(roots).lemma_cardinality_of_set();
}


/// Computes the transitive closure of the root references, round by
/// round: each round resolves the current frontier in reference order,
/// inserts every definition into the module tree, and gathers the
/// newly discovered references for the next round.  A reference seen
/// again, through a cycle or a second path, is skipped, so every
/// reachable type lands in the tree exactly once, and the fixed order
/// makes the tree a function of the inputs alone.
#[verifier::rlimit(100)]
#[verifier::spinoff_prover]
pub fn resolve_types(
    repo: &crate::repo::YamlRepo,
    root_refs: Vec<crate::typeref::TypeRef>,
) -> (res: Result<TypeModuleContext, crate::Error>)
    requires
        crate::refset::refs_sorted(root_refs@),
        crate::refset::refs_wf(root_refs@),
    ensures
        match res {
            Ok(tree) => {
                &&& tree_wf(tree)
                &&& forall|t: TypeRefKey|
                    type_ref_wf(t) ==> #[trigger] tree_count_key(tree, t) == (if reachable(
                        repo.roots@,
                        crate::refset::key_set(root_refs@),
                        t,
                    ) {
                        1nat
                    } else {
                        0nat
                    })
                &&& forall|t: TypeRefKey|
                    type_ref_wf(t) && #[trigger] reachable(
                        repo.roots@,
                        crate::refset::key_set(root_refs@),
                        t,
                    ) ==> def_ok(repo.roots@, t)
            },
            Err(e) => {
                &&& exists|t: TypeRefKey|
                    type_ref_wf(t) && #[trigger] reachable(
                        repo.roots@,
                        crate::refset::key_set(root_refs@),
                        t,
                    ) && !def_ok(repo.roots@, t)
                &&& (e is NotFound || e is Ambiguous || e is MalformedReference
                    || e is SchemaConflict)
            },
        },
{
    let ghost roots_spec = repo.roots@;
    let ghost start = crate::refset::key_set(root_refs@);
    let mut frontier = root_refs;
    let mut done: Vec<crate::typeref::TypeRef> = Vec::new();
    let mut tree = TypeModuleContext {
        children: Vec::new(),
        objects: Vec::new(),
        enums: Vec::new(),
    };
    proof {
        assert(crate::refset::key_set(done@) =~= Set::<TypeRefKey>::empty());
        assert(start.subset_of(
            crate::refset::key_set(done@) + crate::refset::key_set(frontier@),
        ));
        assert forall|k: TypeRefKey| #[trigger]
            crate::refset::key_set(frontier@).contains(k) implies reachable(
            roots_spec,
            start,
            k,
        ) by {
            lemma_reachable_base(roots_spec, start, k);
        }
        assert forall|k: TypeRefKey| type_ref_wf(k) implies #[trigger] tree_count_key(tree, k)
            == 0nat by {
            lemma_empty_tree_count(tree, k.path, k.name);
        }
    }
    while frontier.len() > 0
        invariant
            roots_spec == repo.roots@,
            start == crate::refset::key_set(root_refs@),
            crate::refset::refs_sorted(done@),
            crate::refset::refs_wf(done@),
            crate::refset::refs_sorted(frontier@),
            crate::refset::refs_wf(frontier@),
            crate::refset::key_set(done@).disjoint(crate::refset::key_set(frontier@)),
            start.subset_of(crate::refset::key_set(done@) + crate::refset::key_set(frontier@)),
            forall|k: TypeRefKey| #[trigger]
                crate::refset::key_set(done@).contains(k) ==> reachable(roots_spec, start, k),
            forall|k: TypeRefKey| #[trigger]
                crate::refset::key_set(frontier@).contains(k) ==> reachable(roots_spec, start, k),
            forall|k: TypeRefKey| #[trigger]
                crate::refset::key_set(done@).contains(k) ==> def_ok(roots_spec, k)
                    && def_ref_keys(roots_spec, k).subset_of(
                    crate::refset::key_set(done@) + crate::refset::key_set(frontier@),
                ),
            tree_wf(tree),
            forall|k: TypeRefKey|
                type_ref_wf(k) ==> #[trigger] tree_count_key(tree, k) == (if crate::refset::key_set(
                    done@,
                ).contains(k) {
                    1nat
                } else {
                    0nat
                }),
            done@.len() <= repo_keys(roots_spec).len(),
        decreases repo_keys(roots_spec).len() - done@.len(),
    {
        let ghost od = done@;
        let ghost odk = crate::refset::key_set(done@);
        let ghost fseq = frontier@;
        let ghost fkeys = crate::refset::key_set(frontier@);
        let mut next: Vec<crate::typeref::TypeRef> = Vec::new();
        let mut fi: usize = 0;
        proof {
            assert(fseq.take(0) =~= Seq::<crate::typeref::TypeRef>::empty());
            assert(crate::refset::key_set(fseq.take(0)) =~= Set::<TypeRefKey>::empty());
            assert(crate::refset::key_set(done@) =~= odk + crate::refset::key_set(fseq.take(0)));
            assert(crate::refset::key_set(next@) =~= defs_keys_of(roots_spec, fseq.take(0)));
        }
        while fi < frontier.len()
            invariant
                roots_spec == repo.roots@,
                start == crate::refset::key_set(root_refs@),
                0 <= fi <= fseq.len(),
                fseq == frontier@,
                fkeys == crate::refset::key_set(fseq),
                crate::refset::refs_sorted(fseq),
                crate::refset::refs_wf(fseq),
                crate::refset::refs_sorted(done@),
                crate::refset::refs_wf(done@),
                crate::refset::refs_sorted(next@),
                crate::refset::refs_wf(next@),
                odk.disjoint(fkeys),
                crate::refset::key_set(done@) == odk + crate::refset::key_set(
                    fseq.take(fi as int),
                ),
                done@.len() == od.len() + fi,
                crate::refset::key_set(next@) == defs_keys_of(roots_spec, fseq.take(fi as int)),
                start.subset_of(odk + fkeys),
                forall|k: TypeRefKey| #[trigger]
                    odk.contains(k) ==> reachable(roots_spec, start, k),
                forall|k: TypeRefKey| #[trigger]
                    fkeys.contains(k) ==> reachable(roots_spec, start, k),
                forall|k: TypeRefKey| #[trigger]
                    odk.contains(k) ==> def_ok(roots_spec, k) && def_ref_keys(
                        roots_spec,
                        k,
                    ).subset_of(odk + fkeys),
                forall|k: TypeRefKey| #[trigger]
                    crate::refset::key_set(fseq.take(fi as int)).contains(k) ==> def_ok(
                        roots_spec,
                        k,
                    ),
                forall|k: TypeRefKey| #[trigger]
                    crate::refset::key_set(next@).contains(k) ==> reachable(roots_spec, start, k),
                tree_wf(tree),
                forall|k: TypeRefKey|
                    type_ref_wf(k) ==> #[trigger] tree_count_key(tree, k) == (if crate::refset::key_set(
                        done@,
                    ).contains(k) {
                        1nat
                    } else {
                        0nat
                    }),
            decreases fseq.len() - fi,
        {
            let ghost cur = fseq[fi as int]@;
            proof {
                assert(fseq.take(fi + 1 as int).drop_last() =~= fseq.take(fi as int));
                assert(fseq.take(fi + 1 as int).last() == fseq[fi as int]);
                assert(crate::refset::ref_keys(fseq)[fi as int] == cur);
                assert(fkeys.contains(cur));
                assert(type_ref_wf(cur));
                assert(reachable(roots_spec, start, cur));
            }
            let ghost next_before = next@;
            let tc = match type_context_from_ref(&frontier[fi], repo, &mut next) {
                Ok(tc) => tc,
                Err(e) => {
                    return Err(e);
                },
            };
            proof {
                assert(tc_name(tc) == cur.name);
                assert(views_of(frontier[fi as int].module_parts@).skip(0) =~= cur.path);
                // every newly discovered reference is one step away
                assert forall|k: TypeRefKey| #[trigger]
                    crate::refset::key_set(next@).contains(k) implies reachable(
                    roots_spec,
                    start,
                    k,
                ) by {
                    if crate::refset::key_set(next_before).contains(k) {
                    } else {
                        assert(def_ref_keys(roots_spec, cur).contains(k));
                        assert(step_ref(roots_spec, cur, k));
                        lemma_reachable_step(roots_spec, start, cur, k);
                    }
                }
            }
            let ghost tree_before = tree;
            tree = tree_insert(tree, &frontier[fi].module_parts, 0, tc);
            let current = frontier[fi].duplicate();
            let ghost done_before = done@;
            crate::refset::insert_ref(&mut done, current);
            proof {
                // the processed reference was new
                assert(!crate::refset::key_set(done_before).contains(cur)) by {
                    if crate::refset::key_set(fseq.take(fi as int)).contains(cur) {
                        let j = choose|j: int|
                            0 <= j < fi && #[trigger] crate::refset::ref_keys(
                                fseq.take(fi as int),
                            )[j] == cur;
                        assert(fseq[j]@ == cur);
                        assert(crate::typeref::ref_lt(fseq[j]@, fseq[fi as int]@));
                        crate::refset::lemma_ref_lt_irreflexive(cur);
                        assert(false);
                    }
                }
                assert(done@.len() == od.len() + fi + 1);
                assert(crate::refset::key_set(fseq.take(fi + 1 as int))
                    =~= crate::refset::key_set(fseq.take(fi as int)).insert(cur)) by {
                        assert forall|k: TypeRefKey| #[trigger]
                            crate::refset::key_set(fseq.take(fi + 1 as int)).contains(
                            k,
                        ) implies crate::refset::key_set(fseq.take(fi as int)).insert(cur).contains(
                            k,
                        ) by {
                            let j = choose|j: int|
                                0 <= j < fi + 1 && #[trigger] crate::refset::ref_keys(
                                    fseq.take(fi + 1 as int),
                                )[j] == k;
                            if j < fi {
                                assert(crate::refset::ref_keys(fseq.take(fi as int))[j] == k);
                            }
                        }
                        assert forall|k: TypeRefKey|
                            crate::refset::key_set(fseq.take(fi as int)).insert(cur).contains(
                                k,
                            ) implies #[trigger] crate::refset::key_set(
                            fseq.take(fi + 1 as int),
                        ).contains(k) by {
                            if k == cur {
                                assert(crate::refset::ref_keys(fseq.take(fi + 1 as int))[fi as int]
                                    == k);
                            } else {
                                let j = choose|j: int|
                                    0 <= j < fi && #[trigger] crate::refset::ref_keys(
                                        fseq.take(fi as int),
                                    )[j] == k;
                                assert(crate::refset::ref_keys(fseq.take(fi + 1 as int))[j] == k);
                            }
                        }
                }
                assert(crate::refset::key_set(done@) =~= odk + crate::refset::key_set(
                    fseq.take(fi + 1 as int),
                ));
                // the next set now covers this definition too
                assert(defs_keys_of(roots_spec, fseq.take(fi + 1 as int)) == defs_keys_of(
                    roots_spec,
                    fseq.take(fi as int),
                ) + def_ref_keys(roots_spec, cur));
                assert(crate::refset::key_set(next@) =~= defs_keys_of(
                    roots_spec,
                    fseq.take(fi + 1 as int),
                ));
                // tree counts follow done membership
                assert forall|k: TypeRefKey| type_ref_wf(k) implies #[trigger] tree_count_key(
                    tree,
                    k,
                ) == (if crate::refset::key_set(done@).contains(k) {
                    1nat
                } else {
                    0nat
                }) by {
                    assert(tree_count_key(tree_before, k) == (if crate::refset::key_set(
                        done_before,
                    ).contains(k) {
                        1nat
                    } else {
                        0nat
                    }));
                    assert(tree_count(tree, k.path, k.name) == tree_count(
                        tree_before,
                        k.path,
                        k.name,
                    ) + (if k.path == cur.path && k.name == cur.name {
                        1nat
                    } else {
                        0nat
                    }));
                    assert(crate::refset::key_set(done@) == crate::refset::key_set(
                        done_before,
                    ).insert(cur));
                    if k.path == cur.path && k.name == cur.name {
                        lemma_wf_key_eq(k, cur);
                        assert(k == cur);
                        assert(!crate::refset::key_set(done_before).contains(cur));
                        assert(tree_count_key(tree, k) == 1nat);
                    } else {
                        assert(k != cur);
                        assert(crate::refset::key_set(done@).contains(k)
                            == crate::refset::key_set(done_before).contains(k));
                        assert(tree_count_key(tree, k) == tree_count_key(tree_before, k));
                    }
                }
            }
            fi = fi + 1;
        }
        proof {
            assert(fseq.take(fseq.len() as int) =~= fseq);
        }
        // Keep only the discoveries that are not already resolved.
        let mut new_frontier: Vec<crate::typeref::TypeRef> = Vec::new();
        let mut ni: usize = 0;
        proof {
            assert(next@.take(0) =~= Seq::<crate::typeref::TypeRef>::empty());
            assert(crate::refset::key_set(new_frontier@) =~= crate::refset::key_set(
                next@.take(0),
            ).difference(crate::refset::key_set(done@)));
        }
        while ni < next.len()
            invariant
                0 <= ni <= next@.len(),
                crate::refset::refs_sorted(next@),
                crate::refset::refs_wf(next@),
                crate::refset::refs_sorted(done@),
                crate::refset::refs_wf(done@),
                crate::refset::refs_sorted(new_frontier@),
                crate::refset::refs_wf(new_frontier@),
                crate::refset::key_set(new_frontier@) == crate::refset::key_set(
                    next@.take(ni as int),
                ).difference(crate::refset::key_set(done@)),
            decreases next@.len() - ni,
        {
            let ghost nk = next@[ni as int]@;
            proof {
                assert(next@.take(ni + 1 as int).drop_last() =~= next@.take(ni as int));
                assert(crate::refset::key_set(next@.take(ni + 1 as int))
                    =~= crate::refset::key_set(next@.take(ni as int)).insert(nk)) by {
                    assert forall|k: TypeRefKey| #[trigger]
                        crate::refset::key_set(next@.take(ni + 1 as int)).contains(
                        k,
                    ) implies crate::refset::key_set(next@.take(ni as int)).insert(nk).contains(
                        k,
                    ) by {
                        let j = choose|j: int|
                            0 <= j < ni + 1 && #[trigger] crate::refset::ref_keys(
                                next@.take(ni + 1 as int),
                            )[j] == k;
                        if j < ni {
                            assert(crate::refset::ref_keys(next@.take(ni as int))[j] == k);
                        }
                    }
                    assert forall|k: TypeRefKey|
                        crate::refset::key_set(next@.take(ni as int)).insert(nk).contains(
                            k,
                        ) implies #[trigger] crate::refset::key_set(next@.take(ni + 1 as int)).contains(
                        k,
                    ) by {
                        if k == nk {
                            assert(crate::refset::ref_keys(next@.take(ni + 1 as int))[ni as int]
                                == k);
                        } else {
                            let j = choose|j: int|
                                0 <= j < ni && #[trigger] crate::refset::ref_keys(
                                    next@.take(ni as int),
                                )[j] == k;
                            assert(crate::refset::ref_keys(next@.take(ni + 1 as int))[j] == k);
                        }
                    }
                }
            }
            let keep = !crate::refset::contains_ref(&done, &next[ni]);
            if keep {
                let item = next[ni].duplicate();
                crate::refset::insert_ref(&mut new_frontier, item);
            }
            proof {
                assert(crate::refset::key_set(new_frontier@) =~= crate::refset::key_set(
                    next@.take(ni + 1 as int),
                ).difference(crate::refset::key_set(done@)));
            }
            ni = ni + 1;
        }
        frontier = new_frontier;
        proof {
            assert(next@.take(next@.len() as int) =~= next@);
            // termination: everything resolved has an existing definition
            assert forall|i: int| 0 <= i < done@.len() implies def_exists(
                roots_spec,
                (#[trigger] done@[i]@),
            ) by {
                assert(crate::refset::ref_keys(done@)[i] == done@[i]@);
                assert(crate::refset::key_set(done@).contains(done@[i]@));
            }
            lemma_done_bound(roots_spec, done@);
            // the next frontier is disjoint from what is resolved
            assert(crate::refset::key_set(done@).disjoint(crate::refset::key_set(frontier@)));
            // closure: every resolved definition's references stay inside
            assert forall|k: TypeRefKey| #[trigger]
                crate::refset::key_set(done@).contains(k) implies def_ok(roots_spec, k)
                && def_ref_keys(roots_spec, k).subset_of(
                crate::refset::key_set(done@) + crate::refset::key_set(frontier@),
            ) by {
                if odk.contains(k) {
                    assert(def_ref_keys(roots_spec, k).subset_of(odk + fkeys));
                    assert((odk + fkeys).subset_of(crate::refset::key_set(done@)));
                } else {
                    assert(crate::refset::key_set(fseq).contains(k));
                    assert(def_ok(roots_spec, k));
                    let j = choose|j: int|
                        0 <= j < fseq.len() && #[trigger] crate::refset::ref_keys(fseq)[j] == k;
                    lemma_defs_keys_member(roots_spec, fseq, j);
                    assert(def_ref_keys(roots_spec, k).subset_of(
                        defs_keys_of(roots_spec, fseq),
                    ));
                    assert forall|b: TypeRefKey|
                        defs_keys_of(roots_spec, fseq).contains(b) implies (crate::refset::key_set(
                        done@,
                    ) + crate::refset::key_set(frontier@)).contains(b) by {
                        if !crate::refset::key_set(done@).contains(b) {
                            assert(crate::refset::key_set(frontier@).contains(b));
                        }
                    }
                }
            }
        }
    }
    proof {
        assert(crate::refset::key_set(frontier@) =~= Set::<TypeRefKey>::empty());
        let dset = crate::refset::key_set(done@);
        assert(start.subset_of(dset));
        assert forall|a: TypeRefKey, b: TypeRefKey|
            dset.contains(a) && #[trigger] step_ref(roots_spec, a, b) implies dset.contains(b) by {
            assert(def_ref_keys(roots_spec, a).subset_of(dset + crate::refset::key_set(frontier@)));
            assert((dset + crate::refset::key_set(frontier@)) =~= dset);
        }
        assert forall|t: TypeRefKey| type_ref_wf(t) implies #[trigger] tree_count_key(tree, t)
            == (if reachable(roots_spec, start, t) {
            1nat
        } else {
            0nat
        }) by {
            if dset.contains(t) {
            } else {
                if reachable(roots_spec, start, t) {
                    lemma_reachable_in_closed(roots_spec, start, dset, t);
                }
            }
        }
        assert forall|t: TypeRefKey|
            type_ref_wf(t) && #[trigger] reachable(roots_spec, start, t) implies def_ok(
            roots_spec,
            t,
        ) by {
            lemma_reachable_in_closed(roots_spec, start, dset, t);
        }
    }
    Ok(tree)
}

} // verus!

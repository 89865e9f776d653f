//! Resolved identities of named types.
//!
//! A reference string has the grammar `/<module path>#/<type name>`:
//! any leading slashes are dropped, exactly one `#/` separator must
//! remain, and the part before it is a slash-delimited module path.

use crate::text::chars_lt;
use crate::text::cmp_str;
use crate::text::join_strings;
use crate::text::join_with;
use crate::text::lemma_join_of_split;
use crate::text::split_char;
use crate::text::split_string;
use crate::text::views_of;
use crate::Error;
use vstd::prelude::*;

verus! {

/// The leading slashes of a reference string are not significant.
pub open spec fn trim_leading_slashes(s: Seq<char>) -> Seq<char>
    decreases s.len(),
{
    if s.len() > 0 && s[0] == '/' {
        trim_leading_slashes(s.drop_first())
    } else {
        s
    }
}

/// The `#/` separator stands at position `k`.
pub open spec fn sep_at(s: Seq<char>, k: int) -> bool {
    0 <= k && k + 2 <= s.len() && s[k] == '#' && s[k + 1] == '/'
}

/// The position of the first `#/` separator, or -1 when there is none.
pub open spec fn first_sep(s: Seq<char>) -> int
    decreases s.len(),
{
    if s.len() < 2 {
        -1
    } else if s[0] == '#' && s[1] == '/' {
        0
    } else if first_sep(s.drop_first()) < 0 {
        -1
    } else {
        first_sep(s.drop_first()) + 1
    }
}

/// A reference string is well formed when, after dropping leading
/// slashes, it holds exactly one `#/` separator.
pub open spec fn ref_well_formed(s: Seq<char>) -> bool {
    let t = trim_leading_slashes(s);
    first_sep(t) >= 0 && (forall|k: int| sep_at(t, k) ==> k == first_sep(t))
}

/// The module part of a well-formed reference string.
pub open spec fn ref_module(s: Seq<char>) -> Seq<char> {
    let t = trim_leading_slashes(s);
    t.take(first_sep(t))
}

/// The local type name of a well-formed reference string.
pub open spec fn ref_type_name(s: Seq<char>) -> Seq<char> {
    let t = trim_leading_slashes(s);
    t.skip(first_sep(t) + 2)
}

proof fn lemma_first_sep_bounds(s: Seq<char>)
    ensures
        first_sep(s) >= 0 ==> sep_at(s, first_sep(s)),
        first_sep(s) == -1 || first_sep(s) >= 0,
    decreases s.len(),
{
    if s.len() >= 2 && !(s[0] == '#' && s[1] == '/') {
        lemma_first_sep_bounds(s.drop_first());
    }
}

proof fn lemma_first_sep_least(s: Seq<char>, k: int)
    requires
        sep_at(s, k),
    ensures
        0 <= first_sep(s) <= k,
    decreases s.len(),
{
    if s.len() >= 2 && !(s[0] == '#' && s[1] == '/') {
        assert(k >= 1);
        assert(sep_at(s.drop_first(), k - 1));
        lemma_first_sep_least(s.drop_first(), k - 1);
    }
}

proof fn lemma_first_sep_none(s: Seq<char>)
    requires
        forall|k: int| !sep_at(s, k),
    ensures
        first_sep(s) == -1,
    decreases s.len(),
{
    if s.len() >= 2 {
        assert(!sep_at(s, 0));
        assert forall|k: int| !sep_at(s.drop_first(), k) by {
            if sep_at(s.drop_first(), k) {
                assert(sep_at(s, k + 1));
            }
        }
        lemma_first_sep_none(s.drop_first());
    }
}

proof fn lemma_first_sep_is(s: Seq<char>, k: int)
    requires
        sep_at(s, k),
        forall|j: int| 0 <= j < k ==> !sep_at(s, j),
    ensures
        first_sep(s) == k,
{
    lemma_first_sep_least(s, k);
    lemma_first_sep_bounds(s);
}

proof fn lemma_trim_is_skip(s: Seq<char>, i: int)
    requires
        0 <= i <= s.len(),
        forall|j: int| 0 <= j < i ==> s[j] == '/',
        i == s.len() || s[i] != '/',
    ensures
        trim_leading_slashes(s) == s.skip(i),
    decreases i,
{
    if i == 0 {
        assert(trim_leading_slashes(s) =~= s.skip(0));
    } else {
        assert(s[0] == '/');
        lemma_trim_is_skip(s.drop_first(), i - 1);
        assert(s.drop_first().skip(i - 1) =~= s.skip(i));
    }
}

/// The identity of a named type at the specification level: the module
/// document it lives in, that document's name split into path segments,
/// and the local type name.
pub ghost struct TypeRefKey {
    pub module: Seq<char>,
    pub path: Seq<Seq<char>>,
    pub name: Seq<char>,
}

/// The path segments are exactly the split of the module document name,
/// so the pair of path and name determines the module name.
pub open spec fn type_ref_wf(k: TypeRefKey) -> bool {
    k.path == split_char(k.module, '/')
}

/// Two well-formed keys that agree on path and name are equal.
pub proof fn lemma_wf_key_eq(a: TypeRefKey, b: TypeRefKey)
    requires
        type_ref_wf(a),
        type_ref_wf(b),
        a.path == b.path,
        a.name == b.name,
    ensures
        a == b,
{
    lemma_join_of_split(a.module, '/');
    lemma_join_of_split(b.module, '/');
}

/// The resolved identity of a named type: the data-type document that
/// declares it, the document name's path segments, and the local name.
#[derive(Debug, Clone, PartialEq)]
pub struct TypeRef {
    /// The logical name of the owning data-type document.
    pub module: String,
    /// The same name split at every slash.
    pub module_parts: Vec<String>,
    /// The local name of the type inside its document.
    pub local_name: String,
}

impl View for TypeRef {
    type V = TypeRefKey;

    open spec fn view(&self) -> TypeRefKey {
        TypeRefKey {
            module: self.module@,
            path: views_of(self.module_parts@),
            name: self.local_name@,
        }
    }
}

impl TypeRef {
    /// Parses a reference string.  Returns the resolved identity when
    /// the string is well formed, and a malformed-reference error
    /// naming the string otherwise.
    pub fn from_reference(r: &str) -> (res: Result<Self, Error>)
        ensures
            match res {
                Ok(t) => {
                    &&& ref_well_formed(r@)
                    &&& t@.module == ref_module(r@)
                    &&& t@.name == ref_type_name(r@)
                    &&& type_ref_wf(t@)
                },
                Err(e) => {
                    &&& !ref_well_formed(r@)
                    &&& e matches Error::MalformedReference(m) && m@ == r@
                },
            },
    {
        let n = r.unicode_len();
        let mut start: usize = 0;
        while start < n && r.get_char(start) == '/'
            invariant
                n == r@.len(),
                0 <= start <= n,
                forall|j: int| 0 <= j < start ==> r@[j] == '/',
            decreases n - start,
        {
            start = start + 1;
        }
        proof {
            lemma_trim_is_skip(r@, start as int);
        }
        let ghost t = trim_leading_slashes(r@);

        // Find the first separator.
        let mut k: usize = start;
        let mut found: bool = false;
        while k < n && k + 1 < n
            invariant_except_break
                !found,
                k <= n,
            invariant
                n == r@.len(),
                t == r@.skip(start as int),
                start <= k,
                found ==> k + 1 < n && sep_at(t, k - start),
                forall|j: int| 0 <= j < k - start ==> !sep_at(t, j),
            ensures
                found ==> k + 1 < n && sep_at(t, k - start),
                !found ==> k + 1 >= n,
                forall|j: int| 0 <= j < k - start ==> !sep_at(t, j),
            decreases n - k,
        {
            if r.get_char(k) == '#' && r.get_char(k + 1) == '/' {
                found = true;
                break ;
            }
            assert(!sep_at(t, k - start));
            k = k + 1;
        }
        if !found {
            proof {
                assert forall|j: int| !sep_at(t, j) by {
                    if 0 <= j && j + 2 <= t.len() {
                        assert(j < k - start);
                    }
                }
                lemma_first_sep_none(t);
            }
            return Err(Error::MalformedReference(r.to_owned()));
        }
        proof {
            lemma_first_sep_is(t, k - start);
        }

        // Any further separator makes the reference ambiguous in form.
        let mut m: usize = k + 1;
        while m < n && m + 1 < n
            invariant
                n == r@.len(),
                t == r@.skip(start as int),
                t == trim_leading_slashes(r@),
                start <= k,
                k + 1 < n,
                first_sep(t) == k - start,
                k < m,
                forall|i: int| k - start < i < m - start ==> !sep_at(t, i),
            decreases n - m,
        {
            if r.get_char(m) == '#' && r.get_char(m + 1) == '/' {
                proof {
                    assert(sep_at(t, m - start));
                }
                return Err(Error::MalformedReference(r.to_owned()));
            }
            assert(!sep_at(t, m - start));
            m = m + 1;
        }
        proof {
            assert forall|i: int| sep_at(t, i) implies i == first_sep(t) by {
                if i < k - start {
                    assert(!sep_at(t, i));
                } else if i > k - start {
                    assert(k - start < i < m - start || i + 2 > t.len());
                }
            }
        }

        let module_str = r.substring_char(start, k);
        let name_str = r.substring_char(k + 2, n);
        proof {
            assert(module_str@ =~= t.take(first_sep(t)));
            assert(name_str@ =~= t.skip(first_sep(t) + 2));
        }
        let segments = split_string(module_str, '/');
        Ok(TypeRef {
            module: module_str.to_owned(),
            module_parts: segments,
            local_name: name_str.to_owned(),
        })
    }

    /// Resolves the reference of an object node.  The node must carry a
    /// reference; carrying inline properties besides it is a schema
    /// conflict.
    pub fn from_object(args: &crate::schema::interface::ObjectOptions) -> (res: Result<
        Self,
        Error,
    >)
        requires
            args.object_reference is Some,
        ensures
            match res {
                Ok(t) => {
                    &&& args.properties@.len() == 0
                    &&& ref_well_formed(args.object_reference->0@)
                    &&& t@.module == ref_module(args.object_reference->0@)
                    &&& t@.name == ref_type_name(args.object_reference->0@)
                    &&& type_ref_wf(t@)
                },
                Err(e) => {
                    if args.properties@.len() > 0 {
                        e matches Error::SchemaConflict(m) && m@ == args.object_reference->0@
                    } else {
                        &&& !ref_well_formed(args.object_reference->0@)
                        &&& e matches Error::MalformedReference(m) && m@
                            == args.object_reference->0@
                    }
                },
            },
    {
        let reference = match &args.object_reference {
            Some(r) => r,
            None => unreached(),
        };
        if args.properties.len() > 0 {
            return Err(Error::SchemaConflict(reference.clone()));
        }
        Self::from_reference(reference.as_str())
    }

    /// Resolves the reference of a string node, which must carry one.
    pub fn from_string(args: &crate::schema::interface::StringOptions) -> (res: Result<
        Self,
        Error,
    >)
        requires
            args.object_reference is Some,
        ensures
            match res {
                Ok(t) => {
                    &&& ref_well_formed(args.object_reference->0@)
                    &&& t@.module == ref_module(args.object_reference->0@)
                    &&& t@.name == ref_type_name(args.object_reference->0@)
                    &&& type_ref_wf(t@)
                },
                Err(e) => {
                    &&& !ref_well_formed(args.object_reference->0@)
                    &&& e matches Error::MalformedReference(m) && m@ == args.object_reference->0@
                },
            },
    {
        let reference = match &args.object_reference {
            Some(r) => r,
            None => unreached(),
        };
        Self::from_reference(reference.as_str())
    }

    /// A copy with the same identity.
    pub fn duplicate(&self) -> (r: Self)
        ensures
            r@ == self@,
    {
        let r = TypeRef {
            module: self.module.clone(),
            module_parts: crate::text::clone_string_vec(&self.module_parts),
            local_name: self.local_name.clone(),
        };
        proof {
            assert(r@.path == self@.path);
        }
        r
    }

    /// The generated module that will hold this type.
    pub fn module_name(&self) -> (r: String)
        ensures
            r@ == module_name_chars(self@),
    {
        let mut s = String::from_str("crate::generated::types::");
        let joined = join_strings(&self.module_parts, "::");
        s.append(joined.as_str());
        s
    }

    /// The fully qualified path of this type inside the generated code.
    pub fn absolute_type_path(&self) -> (r: String)
        ensures
            r@ == absolute_type_path_chars(self@),
    {
        let mut s = self.module_name();
        s.append("::");
        s.append(self.local_name.as_str());
        s
    }
}

/// The generated module holding a type: a fixed prefix followed by the
/// path segments joined with `::`.
pub open spec fn module_name_chars(k: TypeRefKey) -> Seq<char> {
    "crate::generated::types::"@ + join_with(k.path, "::"@)
}

/// The fully qualified name of a type: its module followed by its name.
pub open spec fn absolute_type_path_chars(k: TypeRefKey) -> Seq<char> {
    module_name_chars(k) + "::"@ + k.name
}

// ---- The total order in which type references are processed ----

/// Strict lexicographic order on path segment sequences.
pub open spec fn paths_lt(a: Seq<Seq<char>>, b: Seq<Seq<char>>) -> bool
    decreases a.len(),
{
    if b.len() == 0 {
        false
    } else if a.len() == 0 {
        true
    } else if a[0] == b[0] {
        paths_lt(a.drop_first(), b.drop_first())
    } else {
        chars_lt(a[0], b[0])
    }
}

/// Strict total order on type reference keys: by path, then by name.
pub open spec fn ref_lt(a: TypeRefKey, b: TypeRefKey) -> bool {
    paths_lt(a.path, b.path) || (a.path == b.path && chars_lt(a.name, b.name))
}

pub proof fn lemma_paths_lt_asymmetric(a: Seq<Seq<char>>, b: Seq<Seq<char>>)
    ensures
        !(paths_lt(a, b) && paths_lt(b, a)),
    decreases a.len(),
{
    if a.len() > 0 && b.len() > 0 {
        if a[0] == b[0] {
            lemma_paths_lt_asymmetric(a.drop_first(), b.drop_first());
        } else {
            crate::text::lemma_chars_lt_asymmetric(a[0], b[0]);
        }
    }
}

pub proof fn lemma_paths_lt_connected(a: Seq<Seq<char>>, b: Seq<Seq<char>>)
    requires
        !paths_lt(a, b),
        !paths_lt(b, a),
    ensures
        a == b,
    decreases a.len(),
{
    if a.len() == 0 || b.len() == 0 {
        assert(a =~= b);
    } else if a[0] == b[0] {
        lemma_paths_lt_connected(a.drop_first(), b.drop_first());
        assert(a =~= seq![a[0]] + a.drop_first());
        assert(b =~= seq![b[0]] + b.drop_first());
    } else {
        crate::text::lemma_chars_lt_connected(a[0], b[0]);
        assert(false);
    }
}

pub proof fn lemma_paths_lt_transitive(a: Seq<Seq<char>>, b: Seq<Seq<char>>, c: Seq<Seq<char>>)
    requires
        paths_lt(a, b),
        paths_lt(b, c),
    ensures
        paths_lt(a, c),
    decreases a.len(),
{
    if a.len() > 0 && b.len() > 0 && c.len() > 0 {
        if a[0] == b[0] && b[0] == c[0] {
            lemma_paths_lt_transitive(a.drop_first(), b.drop_first(), c.drop_first());
        } else if a[0] == b[0] {
            assert(chars_lt(b[0], c[0]));
        } else if b[0] == c[0] {
            assert(chars_lt(a[0], b[0]));
        } else {
            crate::text::lemma_chars_lt_transitive(a[0], b[0], c[0]);
            if a[0] == c[0] {
                crate::text::lemma_chars_lt_asymmetric(a[0], b[0]);
                crate::text::lemma_chars_lt_transitive(a[0], b[0], c[0]);
                assert(false);
            }
        }
    }
}

pub proof fn lemma_ref_lt_asymmetric(a: TypeRefKey, b: TypeRefKey)
    ensures
        !(ref_lt(a, b) && ref_lt(b, a)),
{
    lemma_paths_lt_asymmetric(a.path, b.path);
    crate::text::lemma_chars_lt_asymmetric(a.name, b.name);
}

pub proof fn lemma_ref_lt_connected(a: TypeRefKey, b: TypeRefKey)
    requires
        !ref_lt(a, b),
        !ref_lt(b, a),
    ensures
        a.path == b.path,
        a.name == b.name,
{
    lemma_paths_lt_connected(a.path, b.path);
    crate::text::lemma_chars_lt_connected(a.name, b.name);
}

pub proof fn lemma_ref_lt_transitive(a: TypeRefKey, b: TypeRefKey, c: TypeRefKey)
    requires
        ref_lt(a, b),
        ref_lt(b, c),
    ensures
        ref_lt(a, c),
{
    if paths_lt(a.path, b.path) && paths_lt(b.path, c.path) {
        lemma_paths_lt_transitive(a.path, b.path, c.path);
    } else if a.path == b.path && b.path == c.path {
        crate::text::lemma_chars_lt_transitive(a.name, b.name, c.name);
    }
}

proof fn lemma_paths_lt_from_difference(a: Seq<Seq<char>>, b: Seq<Seq<char>>, i: int)
    requires
        0 <= i < a.len(),
        i < b.len(),
        forall|j: int| 0 <= j < i ==> a[j] == b[j],
        a[i] != b[i],
        chars_lt(a[i], b[i]),
    ensures
        paths_lt(a, b),
    decreases i,
{
    if i > 0 {
        lemma_paths_lt_from_difference(a.drop_first(), b.drop_first(), i - 1);
    }
}

proof fn lemma_paths_lt_from_prefix(a: Seq<Seq<char>>, b: Seq<Seq<char>>)
    requires
        a.len() < b.len(),
        forall|j: int| 0 <= j < a.len() ==> a[j] == b[j],
    ensures
        paths_lt(a, b),
    decreases a.len(),
{
    if a.len() > 0 {
        lemma_paths_lt_from_prefix(a.drop_first(), b.drop_first());
    }
}

/// Three-way comparison of two segment paths.
fn cmp_paths(a: &Vec<String>, b: &Vec<String>) -> (r: core::cmp::Ordering)
    ensures
        r == core::cmp::Ordering::Less <==> paths_lt(views_of(a@), views_of(b@)),
        r == core::cmp::Ordering::Equal <==> views_of(a@) == views_of(b@),
        r == core::cmp::Ordering::Greater <==> paths_lt(views_of(b@), views_of(a@)),
{
    let ghost av = views_of(a@);
    let ghost bv = views_of(b@);
    proof {
        lemma_paths_lt_asymmetric(av, bv);
    }
    let mut i: usize = 0;
    while i < a.len() && i < b.len()
        invariant
            av == views_of(a@),
            bv == views_of(b@),
            av.len() == a@.len(),
            bv.len() == b@.len(),
            0 <= i <= a@.len(),
            i <= b@.len(),
            forall|j: int| 0 <= j < i ==> av[j] == bv[j],
        decreases a@.len() - i,
    {
        match cmp_str(a[i].as_str(), b[i].as_str()) {
            core::cmp::Ordering::Less => {
                proof {
                    lemma_paths_lt_from_difference(av, bv, i as int);
                    lemma_paths_lt_asymmetric(av, bv);
                }
                return core::cmp::Ordering::Less;
            },
            core::cmp::Ordering::Greater => {
                proof {
                    lemma_paths_lt_from_difference(bv, av, i as int);
                    lemma_paths_lt_asymmetric(av, bv);
                }
                return core::cmp::Ordering::Greater;
            },
            core::cmp::Ordering::Equal => {
                assert(av[i as int] == bv[i as int]);
            },
        }
        i = i + 1;
    }
    if a.len() == b.len() {
        proof {
            assert(av =~= bv);
        }
        core::cmp::Ordering::Equal
    } else if a.len() < b.len() {
        proof {
            lemma_paths_lt_from_prefix(av, bv);
            lemma_paths_lt_asymmetric(av, bv);
        }
        core::cmp::Ordering::Less
    } else {
        proof {
            lemma_paths_lt_from_prefix(bv, av);
            lemma_paths_lt_asymmetric(av, bv);
        }
        core::cmp::Ordering::Greater
    }
}

/// Three-way comparison of two type references in processing order.
pub fn cmp_type_ref(a: &TypeRef, b: &TypeRef) -> (r: core::cmp::Ordering)
    ensures
        r == core::cmp::Ordering::Less <==> ref_lt(a@, b@),
        r == core::cmp::Ordering::Equal <==> (a@.path == b@.path && a@.name == b@.name),
        r == core::cmp::Ordering::Greater <==> ref_lt(b@, a@),
{
    proof {
        lemma_paths_lt_asymmetric(a@.path, b@.path);
        crate::text::lemma_chars_lt_asymmetric(a@.name, b@.name);
    }
    match cmp_paths(&a.module_parts, &b.module_parts) {
        core::cmp::Ordering::Less => core::cmp::Ordering::Less,
        core::cmp::Ordering::Greater => core::cmp::Ordering::Greater,
        core::cmp::Ordering::Equal => cmp_str(a.local_name.as_str(), b.local_name.as_str()),
    }
}

} // verus!

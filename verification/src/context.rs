//! Template-ready projections of the schema model.
//!
//! Every argument, command, interface, slot and configuration entry is
//! flattened into a plain structure whose fields a template substitutes
//! directly.  The specification-level mirrors below pin each projection
//! down exactly: what target type name an argument maps to, which type
//! references it contributes, and when projection fails.

use crate::refset::insert_ref;
use crate::refset::key_set;
use crate::refset::refs_sorted;
use crate::refset::refs_wf;
use crate::schema::interface::Argument;
use crate::schema::interface::Command;
use crate::schema::interface::Interface;
use crate::schema::interface::Type;
use crate::schema::interface::Variable;
use crate::repo::interface_count;
use crate::repo::repo_interface;
use crate::repo::YamlRepo;
use crate::schema::manifest::ConfigEntry;
use crate::schema::manifest::ConfigEnum;
use crate::typeref::absolute_type_path_chars;
use crate::typeref::ref_module;
use crate::typeref::ref_type_name;
use crate::typeref::ref_well_formed;
use crate::typeref::type_ref_wf;
use crate::typeref::TypeRef;
use crate::typeref::TypeRefKey;
use crate::text::split_char;
use crate::Error;
use vstd::prelude::*;

verus! {

/// The view of an optional string.
pub open spec fn opt_chars(o: Option<String>) -> Option<Seq<char>> {
    match o {
        Option::None => Option::None,
        Option::Some(s) => Option::Some(s@),
    }
}

/// The key a reference string resolves to.
pub open spec fn ref_key(s: Seq<char>) -> TypeRefKey {
    TypeRefKey {
        module: ref_module(s),
        path: split_char(ref_module(s), '/'),
        name: ref_type_name(s),
    }
}

/// Every reference inside the argument parses and no object node
/// carries both a reference and inline properties.
pub open spec fn arg_refs_ok(arg: Argument) -> bool
    decreases arg,
{
    match arg {
        Argument::Single(t) => type_refs_ok(t),
        Argument::Multiple(_) => true,
    }
}

/// The references the argument contributes to the working set.
pub open spec fn arg_ref_keys(arg: Argument) -> Set<TypeRefKey>
    decreases arg,
{
    match arg {
        Argument::Single(t) => type_ref_keys(t),
        Argument::Multiple(_) => Set::empty(),
    }
}

/// The target-language type name the argument maps to.
pub open spec fn arg_type_name(arg: Argument) -> Seq<char>
    decreases arg,
{
    match arg {
        Argument::Single(t) => single_type_name(t),
        Argument::Multiple(_) => "::serde_json::Value"@,
    }
}

pub open spec fn type_refs_ok(t: Type) -> bool
    decreases t,
{
    match t {
        Type::Null => true,
        Type::Boolean => true,
        Type::Number => true,
        Type::Integer => true,
        Type::String(o) => (o.object_reference matches Some(r) ==> ref_well_formed(r@)),
        Type::Object(o) => match o.object_reference {
            Option::Some(r) => o.properties@.len() == 0 && ref_well_formed(r@),
            Option::None => props_refs_ok(o.properties@),
        },
        Type::Array(o) => (o.items matches Some(v) ==> arg_refs_ok(v.arg)),
    }
}

pub open spec fn type_ref_keys(t: Type) -> Set<TypeRefKey>
    decreases t,
{
    match t {
        Type::Null => Set::empty(),
        Type::Boolean => Set::empty(),
        Type::Number => Set::empty(),
        Type::Integer => Set::empty(),
        Type::String(o) => match o.object_reference {
            Option::Some(r) => Set::empty().insert(ref_key(r@)),
            Option::None => Set::empty(),
        },
        Type::Object(o) => match o.object_reference {
            Option::Some(r) => Set::empty().insert(ref_key(r@)),
            Option::None => props_ref_keys(o.properties@),
        },
        Type::Array(o) => match o.items {
            Option::Some(v) => arg_ref_keys(v.arg),
            Option::None => Set::empty(),
        },
    }
}

pub open spec fn single_type_name(t: Type) -> Seq<char>
    decreases t,
{
    match t {
        Type::Null => "()"@,
        Type::Boolean => "bool"@,
        Type::Number => "f64"@,
        Type::Integer => "i64"@,
        Type::String(o) => match o.object_reference {
            Option::Some(r) => absolute_type_path_chars(ref_key(r@)),
            Option::None => "String"@,
        },
        Type::Object(o) => match o.object_reference {
            Option::Some(r) => absolute_type_path_chars(ref_key(r@)),
            Option::None => "::serde_json::Value"@,
        },
        Type::Array(o) => match o.items {
            Option::Some(v) => "Vec<"@ + arg_type_name(v.arg) + ">"@,
            Option::None => "Vec<::serde_json::Value>"@,
        },
    }
}

/// Reference soundness of a list of named variables.
pub open spec fn props_refs_ok(props: Seq<(String, Variable)>) -> bool
    decreases props,
{
    if props.len() == 0 {
        true
    } else {
        props_refs_ok(props.drop_last()) && arg_refs_ok(props.last().1.arg)
    }
}

/// The references contributed by a list of named variables.
pub open spec fn props_ref_keys(props: Seq<(String, Variable)>) -> Set<TypeRefKey>
    decreases props,
{
    if props.len() == 0 {
        Set::empty()
    } else {
        props_ref_keys(props.drop_last()) + arg_ref_keys(props.last().1.arg)
    }
}

/// A failing member makes the whole list fail.
pub proof fn lemma_props_refs_ok_index(props: Seq<(String, Variable)>, i: int)
    requires
        props_refs_ok(props),
        0 <= i < props.len(),
    ensures
        arg_refs_ok(props[i].1.arg),
    decreases props.len(),
{
    if i < props.len() - 1 {
        lemma_props_refs_ok_index(props.drop_last(), i);
    }
}

/// One flattened argument, variable, property or configuration entry.
#[derive(Debug, Clone, PartialEq)]
pub struct ArgumentContext {
    pub name: String,
    pub description: Option<String>,
    pub data_type: String,
}

/// Maps the argument's scalar classification to its target type name,
/// adding every reference it carries to the working set, which stays
/// sorted and duplicate-free.
pub fn as_typename(arg: &Argument, type_refs: &mut Vec<TypeRef>) -> (res: Result<String, Error>)
    requires
        refs_sorted(old(type_refs)@),
        refs_wf(old(type_refs)@),
    ensures
        refs_sorted(final (type_refs)@),
        refs_wf(final (type_refs)@),
        match res {
            Ok(s) => {
                &&& arg_refs_ok(*arg)
                &&& s@ == arg_type_name(*arg)
                &&& key_set(final (type_refs)@) == key_set(old(type_refs)@) + arg_ref_keys(*arg)
            },
            Err(e) => {
                &&& !arg_refs_ok(*arg)
                &&& (e is MalformedReference || e is SchemaConflict)
                &&& key_set(old(type_refs)@).subset_of(key_set(final (type_refs)@))
                &&& key_set(final (type_refs)@).subset_of(
                    key_set(old(type_refs)@) + arg_ref_keys(*arg),
                )
            },
        },
    decreases arg,
{
    match arg {
        Argument::Multiple(_) => {
            proof {
                assert(key_set(type_refs@) =~= key_set(type_refs@) + arg_ref_keys(*arg));
            }
            Ok(String::from_str("::serde_json::Value"))
        },
        Argument::Single(t) => {
            match t {
                Type::Null => {
                    proof {
                        assert(key_set(type_refs@) =~= key_set(type_refs@) + arg_ref_keys(*arg));
                    }
                    Ok(String::from_str("()"))
                },
                Type::Boolean => {
                    proof {
                        assert(key_set(type_refs@) =~= key_set(type_refs@) + arg_ref_keys(*arg));
                    }
                    Ok(String::from_str("bool"))
                },
                Type::Number => {
                    proof {
                        assert(key_set(type_refs@) =~= key_set(type_refs@) + arg_ref_keys(*arg));
                    }
                    Ok(String::from_str("f64"))
                },
                Type::Integer => {
                    proof {
                        assert(key_set(type_refs@) =~= key_set(type_refs@) + arg_ref_keys(*arg));
                    }
                    Ok(String::from_str("i64"))
                },
                Type::String(o) => {
                    if o.object_reference.is_none() {
                        proof {
                            assert(key_set(type_refs@) =~= key_set(type_refs@) + arg_ref_keys(
                                *arg,
                            ));
                        }
                        Ok(String::from_str("String"))
                    } else {
                        let t_ref = match TypeRef::from_string(o) {
                            Ok(t_ref) => t_ref,
                            Err(e) => {
                                proof {
                                    assert(key_set(type_refs@).subset_of(
                                        key_set(type_refs@) + arg_ref_keys(*arg),
                                    ));
                                }
                                return Err(e);
                            },
                        };
                        let name = t_ref.absolute_type_path();
                        proof {
                            assert(t_ref@ == ref_key(o.object_reference->0@));
                        }
                        insert_ref(type_refs, t_ref);
                        proof {
                            assert(key_set(type_refs@) =~= key_set(old(type_refs)@) + arg_ref_keys(
                                *arg,
                            ));
                        }
                        Ok(name)
                    }
                },
                Type::Object(o) => {
                    if o.object_reference.is_none() {
                        let ghost props = o.properties@;
                        let mut i: usize = 0;
                        while i < o.properties.len()
                            invariant
                                refs_sorted(type_refs@),
                                refs_wf(type_refs@),
                                0 <= i <= props.len(),
                                props == o.properties@,
                                o.object_reference is None,
                                *arg == Argument::Single(Type::Object(*o)),
                                props_refs_ok(props.take(i as int)),
                                key_set(type_refs@) == key_set(old(type_refs)@) + props_ref_keys(
                                    props.take(i as int),
                                ),
                            decreases props.len() - i,
                        {
                            proof {
                                assert(props.take(i + 1 as int).drop_last() =~= props.take(
                                    i as int,
                                ));
                                assert(props.take(i + 1 as int).last() == props[i as int]);
                                assert(decreases_to!(*arg => arg->Single_0));
                                assert(arg->Single_0 == Type::Object(*o));
                                assert(decreases_to!(arg->Single_0 => arg->Single_0->Object_0));
                                assert(arg->Single_0->Object_0 == *o);
                                assert(decreases_to!(*o => o.properties@));
                                assert(decreases_to!(o.properties@ => o.properties@[i as int]));
                                assert(decreases_to!(
                                    o.properties@[i as int] => o.properties@[i as int].1.arg
                                ));
                            }
                            let inner = as_typename(&o.properties[i].1.arg, type_refs);
                            match inner {
                                Ok(_) => {},
                                Err(e) => {
                                    proof {
                                        if props_refs_ok(props) {
                                            lemma_props_refs_ok_index(props, i as int);
                                        }
                                        assert(props_ref_keys(props.take(i as int)).subset_of(
                                            props_ref_keys(props),
                                        )) by {
                                            lemma_props_ref_keys_prefix(props, i as int);
                                        }
                                        assert(props_ref_keys(props.take(i + 1 as int)).subset_of(
                                            props_ref_keys(props),
                                        )) by {
                                            lemma_props_ref_keys_prefix(props, i + 1 as int);
                                        }
                                    }
                                    return Err(e);
                                },
                            }
                            i = i + 1;
                        }
                        proof {
                            assert(props.take(props.len() as int) =~= props);
                        }
                        Ok(String::from_str("::serde_json::Value"))
                    } else {
                        let t_ref = match TypeRef::from_object(o) {
                            Ok(t_ref) => t_ref,
                            Err(e) => {
                                proof {
                                    assert(key_set(type_refs@).subset_of(
                                        key_set(type_refs@) + arg_ref_keys(*arg),
                                    ));
                                }
                                return Err(e);
                            },
                        };
                        let name = t_ref.absolute_type_path();
                        proof {
                            assert(t_ref@ == ref_key(o.object_reference->0@));
                        }
                        insert_ref(type_refs, t_ref);
                        proof {
                            assert(key_set(type_refs@) =~= key_set(old(type_refs)@) + arg_ref_keys(
                                *arg,
                            ));
                        }
                        Ok(name)
                    }
                },
                Type::Array(o) => {
                    match &o.items {
                        Option::None => {
                            proof {
                                assert(key_set(type_refs@) =~= key_set(type_refs@) + arg_ref_keys(
                                    *arg,
                                ));
                            }
                            Ok(String::from_str("Vec<::serde_json::Value>"))
                        },
                        Option::Some(v) => {
                            let inner = match as_typename(&v.arg, type_refs) {
                                Ok(s) => s,
                                Err(e) => {
                                    return Err(e);
                                },
                            };
                            let mut s = String::from_str("Vec<");
                            s.append(inner.as_str());
                            s.append(">");
                            Ok(s)
                        },
                    }
                },
            }
        },
    }
}

/// A prefix contributes a subset of the whole list's references.
pub proof fn lemma_props_ref_keys_prefix(props: Seq<(String, Variable)>, i: int)
    requires
        0 <= i <= props.len(),
    ensures
        props_ref_keys(props.take(i)).subset_of(props_ref_keys(props)),
    decreases props.len() - i,
{
    if i < props.len() {
        lemma_props_ref_keys_prefix(props, i + 1);
        assert(props.take(i + 1).drop_last() =~= props.take(i));
        assert(props_ref_keys(props.take(i)).subset_of(props_ref_keys(props.take(i + 1))));
    } else {
        assert(props.take(i) =~= props);
    }
}

/// Copies an optional string.
pub fn clone_opt_string(o: &Option<String>) -> (r: Option<String>)
    ensures
        opt_chars(r) == opt_chars(*o),
{
    match o {
        Option::None => Option::None,
        Option::Some(s) => Option::Some(s.clone()),
    }
}

/// The flattened context agrees with the schema variable: same name and
/// description, and the data type the argument grammar maps to.
pub open spec fn arg_ctx_matches(c: ArgumentContext, name: Seq<char>, v: Variable) -> bool {
    &&& c.name@ == name
    &&& opt_chars(c.description) == opt_chars(v.description)
    &&& c.data_type@ == arg_type_name(v.arg)
}

impl ArgumentContext {
    /// Flattens one named variable, collecting its type references.
    pub fn from_schema(name: String, var: &Variable, type_refs: &mut Vec<TypeRef>) -> (res: Result<
        ArgumentContext,
        Error,
    >)
        requires
            refs_sorted(old(type_refs)@),
            refs_wf(old(type_refs)@),
        ensures
            refs_sorted(final (type_refs)@),
            refs_wf(final (type_refs)@),
            match res {
                Ok(c) => {
                    &&& arg_refs_ok(var.arg)
                    &&& arg_ctx_matches(c, name@, *var)
                    &&& key_set(final (type_refs)@) == key_set(old(type_refs)@) + arg_ref_keys(
                        var.arg,
                    )
                },
                Err(e) => {
                    &&& !arg_refs_ok(var.arg)
                    &&& (e is MalformedReference || e is SchemaConflict)
                    &&& key_set(old(type_refs)@).subset_of(key_set(final (type_refs)@))
                    &&& key_set(final (type_refs)@).subset_of(
                        key_set(old(type_refs)@) + arg_ref_keys(var.arg),
                    )
                },
            },
    {
        let data_type = match as_typename(&var.arg, type_refs) {
            Ok(s) => s,
            Err(e) => {
                return Err(e);
            },
        };
        Ok(ArgumentContext { name, description: clone_opt_string(&var.description), data_type })
    }
}

/// One flattened command: its arguments in declaration order and the
/// optional result under the fixed name `return_value`.
#[derive(Debug, Clone, PartialEq)]
pub struct CommandContext {
    pub name: String,
    pub description: String,
    pub result: Option<ArgumentContext>,
    pub arguments: Vec<ArgumentContext>,
}

/// Reference soundness of a command: its arguments and its result.
pub open spec fn cmd_refs_ok(c: Command) -> bool {
    &&& props_refs_ok(c.arguments@)
    &&& (c.result matches Some(v) ==> arg_refs_ok(v.arg))
}

/// The references a command contributes.
pub open spec fn cmd_ref_keys(c: Command) -> Set<TypeRefKey> {
    props_ref_keys(c.arguments@) + (match c.result {
        Option::None => Set::<TypeRefKey>::empty(),
        Option::Some(v) => arg_ref_keys(v.arg),
    })
}

/// The flattened context agrees with the schema command.
pub open spec fn cmd_ctx_matches(c: CommandContext, name: Seq<char>, cmd: Command) -> bool {
    &&& c.name@ == name
    &&& c.description@ == cmd.description@
    &&& c.arguments@.len() == cmd.arguments@.len()
    &&& forall|i: int|
        0 <= i < cmd.arguments@.len() ==> arg_ctx_matches(
            #[trigger] c.arguments@[i],
            cmd.arguments@[i].0@,
            cmd.arguments@[i].1,
        )
    &&& match (c.result, cmd.result) {
        (Option::None, Option::None) => true,
        (Option::Some(rc), Option::Some(rv)) => arg_ctx_matches(rc, "return_value"@, rv),
        _ => false,
    }
}

impl CommandContext {
    /// Flattens one named command, collecting its type references.
    pub fn from_schema(name: String, cmd: &Command, type_refs: &mut Vec<TypeRef>) -> (res: Result<
        CommandContext,
        Error,
    >)
        requires
            refs_sorted(old(type_refs)@),
            refs_wf(old(type_refs)@),
        ensures
            refs_sorted(final (type_refs)@),
            refs_wf(final (type_refs)@),
            match res {
                Ok(c) => {
                    &&& cmd_refs_ok(*cmd)
                    &&& cmd_ctx_matches(c, name@, *cmd)
                    &&& key_set(final (type_refs)@) == key_set(old(type_refs)@) + cmd_ref_keys(
                        *cmd,
                    )
                },
                Err(e) => {
                    &&& !cmd_refs_ok(*cmd)
                    &&& (e is MalformedReference || e is SchemaConflict)
                    &&& key_set(old(type_refs)@).subset_of(key_set(final (type_refs)@))
                    &&& key_set(final (type_refs)@).subset_of(
                        key_set(old(type_refs)@) + cmd_ref_keys(*cmd),
                    )
                },
            },
    {
        let ghost args = cmd.arguments@;
        let mut arguments: Vec<ArgumentContext> = Vec::new();
        let mut i: usize = 0;
        while i < cmd.arguments.len()
            invariant
                refs_sorted(type_refs@),
                refs_wf(type_refs@),
                0 <= i <= args.len(),
                args == cmd.arguments@,
                arguments@.len() == i,
                props_refs_ok(args.take(i as int)),
                forall|j: int|
                    0 <= j < i ==> arg_ctx_matches(
                        #[trigger] arguments@[j],
                        args[j].0@,
                        args[j].1,
                    ),
                key_set(type_refs@) == key_set(old(type_refs)@) + props_ref_keys(
                    args.take(i as int),
                ),
            decreases args.len() - i,
        {
            proof {
                assert(args.take(i + 1 as int).drop_last() =~= args.take(i as int));
                assert(args.take(i + 1 as int).last() == args[i as int]);
            }
            let entry_name = cmd.arguments[i].0.clone();
            match ArgumentContext::from_schema(entry_name, &cmd.arguments[i].1, type_refs) {
                Ok(c) => {
                    arguments.push(c);
                },
                Err(e) => {
                    proof {
                        if props_refs_ok(args) {
                            lemma_props_refs_ok_index(args, i as int);
                        }
                        lemma_props_ref_keys_prefix(args, i as int);
                        lemma_props_ref_keys_prefix(args, i + 1 as int);
                    }
                    return Err(e);
                },
            }
            i = i + 1;
        }
        proof {
            assert(args.take(args.len() as int) =~= args);
        }
        let result = match &cmd.result {
            Option::None => Option::None,
            Option::Some(v) => {
                match ArgumentContext::from_schema(String::from_str("return_value"), v, type_refs) {
                    Ok(c) => Option::Some(c),
                    Err(e) => {
                        return Err(e);
                    },
                }
            },
        };
        proof {
            assert(key_set(type_refs@) =~= key_set(old(type_refs)@) + cmd_ref_keys(*cmd));
        }
        Ok(CommandContext { name, description: cmd.description.clone(), result, arguments })
    }
}

/// One flattened interface: its variables and commands in declaration
/// order.
#[derive(Debug, Clone, PartialEq)]
pub struct InterfaceContext {
    pub name: String,
    pub description: String,
    pub cmds: Vec<CommandContext>,
    pub vars: Vec<ArgumentContext>,
}

/// Reference soundness of a list of named commands.
pub open spec fn cmds_refs_ok(cmds: Seq<(String, Command)>) -> bool
    decreases cmds,
{
    if cmds.len() == 0 {
        true
    } else {
        cmds_refs_ok(cmds.drop_last()) && cmd_refs_ok(cmds.last().1)
    }
}

/// The references contributed by a list of named commands.
pub open spec fn cmds_ref_keys(cmds: Seq<(String, Command)>) -> Set<TypeRefKey>
    decreases cmds,
{
    if cmds.len() == 0 {
        Set::empty()
    } else {
        cmds_ref_keys(cmds.drop_last()) + cmd_ref_keys(cmds.last().1)
    }
}

pub proof fn lemma_cmds_refs_ok_index(cmds: Seq<(String, Command)>, i: int)
    requires
        cmds_refs_ok(cmds),
        0 <= i < cmds.len(),
    ensures
        cmd_refs_ok(cmds[i].1),
    decreases cmds.len(),
{
    if i < cmds.len() - 1 {
        lemma_cmds_refs_ok_index(cmds.drop_last(), i);
    }
}

pub proof fn lemma_cmds_ref_keys_prefix(cmds: Seq<(String, Command)>, i: int)
    requires
        0 <= i <= cmds.len(),
    ensures
        cmds_ref_keys(cmds.take(i)).subset_of(cmds_ref_keys(cmds)),
    decreases cmds.len() - i,
{
    if i < cmds.len() {
        lemma_cmds_ref_keys_prefix(cmds, i + 1);
        assert(cmds.take(i + 1).drop_last() =~= cmds.take(i));
        assert(cmds_ref_keys(cmds.take(i)).subset_of(cmds_ref_keys(cmds.take(i + 1))));
    } else {
        assert(cmds.take(i) =~= cmds);
    }
}

/// Reference soundness of a whole interface document.
pub open spec fn iface_refs_ok(i: Interface) -> bool {
    props_refs_ok(i.vars@) && cmds_refs_ok(i.cmds@)
}

/// The references a whole interface document contributes.
pub open spec fn iface_ref_keys(i: Interface) -> Set<TypeRefKey> {
    props_ref_keys(i.vars@) + cmds_ref_keys(i.cmds@)
}

/// The flattened context agrees with the interface document.
pub open spec fn iface_ctx_matches(c: InterfaceContext, name: Seq<char>, i: Interface) -> bool {
    &&& c.name@ == name
    &&& c.description@ == i.description@
    &&& c.vars@.len() == i.vars@.len()
    &&& forall|j: int|
        0 <= j < i.vars@.len() ==> arg_ctx_matches(#[trigger] c.vars@[j], i.vars@[j].0@, i.vars@[j].1)
    &&& c.cmds@.len() == i.cmds@.len()
    &&& forall|j: int|
        0 <= j < i.cmds@.len() ==> cmd_ctx_matches(#[trigger] c.cmds@[j], i.cmds@[j].0@, i.cmds@[j].1)
}

impl InterfaceContext {
    /// Loads the interface under `name` from the repository and
    /// flattens it, collecting the type references of its variables and
    /// commands.
    pub fn from_yaml(repo: &YamlRepo, name: &str, type_refs: &mut Vec<TypeRef>) -> (res: Result<
        InterfaceContext,
        Error,
    >)
        requires
            refs_sorted(old(type_refs)@),
            refs_wf(old(type_refs)@),
        ensures
            refs_sorted(final (type_refs)@),
            refs_wf(final (type_refs)@),
            key_set(old(type_refs)@).subset_of(key_set(final (type_refs)@)),
            match res {
                Ok(c) => {
                    &&& interface_count(repo.roots@, name@) == 1
                    &&& iface_refs_ok(repo_interface(repo.roots@, name@))
                    &&& iface_ctx_matches(c, name@, repo_interface(repo.roots@, name@))
                    &&& key_set(final (type_refs)@) == key_set(old(type_refs)@) + iface_ref_keys(
                        repo_interface(repo.roots@, name@),
                    )
                },
                Err(e) => {
                    &&& !(interface_count(repo.roots@, name@) == 1 && iface_refs_ok(
                        repo_interface(repo.roots@, name@),
                    ))
                    &&& (interface_count(repo.roots@, name@) == 0 ==> (e matches Error::NotFound(
                        m,
                    ) && m@ == name@))
                    &&& (interface_count(repo.roots@, name@) >= 2 ==> (e matches Error::Ambiguous(
                        m,
                    ) && m@ == name@))
                    &&& (interface_count(repo.roots@, name@) == 1 ==> (e is MalformedReference
                        || e is SchemaConflict))
                    &&& key_set(final (type_refs)@).subset_of(
                        key_set(old(type_refs)@) + iface_ref_keys(
                            repo_interface(repo.roots@, name@),
                        ),
                    )
                },
            },
    {
        let iface = match repo.get_interface(name) {
            Ok(i) => i,
            Err(e) => {
                proof {
                    assert(key_set(type_refs@).subset_of(
                        key_set(type_refs@) + iface_ref_keys(repo_interface(repo.roots@, name@)),
                    ));
                }
                return Err(e);
            },
        };
        let ghost vars_seq = iface.vars@;
        let mut vars: Vec<ArgumentContext> = Vec::new();
        let mut i: usize = 0;
        while i < iface.vars.len()
            invariant
                refs_sorted(type_refs@),
                refs_wf(type_refs@),
                0 <= i <= vars_seq.len(),
                vars_seq == iface.vars@,
                *iface == repo_interface(repo.roots@, name@),
                interface_count(repo.roots@, name@) == 1,
                vars@.len() == i,
                props_refs_ok(vars_seq.take(i as int)),
                forall|j: int|
                    0 <= j < i ==> arg_ctx_matches(
                        #[trigger] vars@[j],
                        vars_seq[j].0@,
                        vars_seq[j].1,
                    ),
                key_set(type_refs@) == key_set(old(type_refs)@) + props_ref_keys(
                    vars_seq.take(i as int),
                ),
            decreases vars_seq.len() - i,
        {
            proof {
                assert(vars_seq.take(i + 1 as int).drop_last() =~= vars_seq.take(i as int));
                assert(vars_seq.take(i + 1 as int).last() == vars_seq[i as int]);
            }
            let entry_name = iface.vars[i].0.clone();
            match ArgumentContext::from_schema(entry_name, &iface.vars[i].1, type_refs) {
                Ok(c) => {
                    vars.push(c);
                },
                Err(e) => {
                    proof {
                        if props_refs_ok(vars_seq) {
                            lemma_props_refs_ok_index(vars_seq, i as int);
                        }
                        lemma_props_ref_keys_prefix(vars_seq, i as int);
                        lemma_props_ref_keys_prefix(vars_seq, i + 1 as int);
                        assert(props_ref_keys(vars_seq).subset_of(
                            iface_ref_keys(repo_interface(repo.roots@, name@)),
                        ));
                    }
                    return Err(e);
                },
            }
            i = i + 1;
        }
        proof {
            assert(vars_seq.take(vars_seq.len() as int) =~= vars_seq);
        }
        let ghost cmds_seq = iface.cmds@;
        let mut cmds: Vec<CommandContext> = Vec::new();
        let mut ci: usize = 0;
        while ci < iface.cmds.len()
            invariant
                refs_sorted(type_refs@),
                refs_wf(type_refs@),
                0 <= ci <= cmds_seq.len(),
                cmds_seq == iface.cmds@,
                vars_seq == iface.vars@,
                *iface == repo_interface(repo.roots@, name@),
                interface_count(repo.roots@, name@) == 1,
                props_refs_ok(vars_seq),
                cmds@.len() == ci,
                cmds_refs_ok(cmds_seq.take(ci as int)),
                forall|j: int|
                    0 <= j < ci ==> cmd_ctx_matches(
                        #[trigger] cmds@[j],
                        cmds_seq[j].0@,
                        cmds_seq[j].1,
                    ),
                key_set(type_refs@) == key_set(old(type_refs)@) + props_ref_keys(vars_seq)
                    + cmds_ref_keys(cmds_seq.take(ci as int)),
            decreases cmds_seq.len() - ci,
        {
            proof {
                assert(cmds_seq.take(ci + 1 as int).drop_last() =~= cmds_seq.take(ci as int));
                assert(cmds_seq.take(ci + 1 as int).last() == cmds_seq[ci as int]);
            }
            let entry_name = iface.cmds[ci].0.clone();
            match CommandContext::from_schema(entry_name, &iface.cmds[ci].1, type_refs) {
                Ok(c) => {
                    cmds.push(c);
                },
                Err(e) => {
                    proof {
                        if cmds_refs_ok(cmds_seq) {
                            lemma_cmds_refs_ok_index(cmds_seq, ci as int);
                        }
                        lemma_cmds_ref_keys_prefix(cmds_seq, ci as int);
                        lemma_cmds_ref_keys_prefix(cmds_seq, ci + 1 as int);
                    }
                    return Err(e);
                },
            }
            ci = ci + 1;
        }
        proof {
            assert(cmds_seq.take(cmds_seq.len() as int) =~= cmds_seq);
            assert(key_set(type_refs@) =~= key_set(old(type_refs)@) + iface_ref_keys(
                repo_interface(repo.roots@, name@),
            ));
        }
        Ok(InterfaceContext { name: name.to_owned(), description: iface.description.clone(), cmds, vars })
    }
}

/// One slot of the manifest: the implementation name and the interface
/// it binds to.
#[derive(Debug, Clone, PartialEq)]
pub struct SlotContext {
    pub implementation_id: String,
    pub interface: String,
}

/// The interface names of a list of slot entries, in entry order.
pub open spec fn entry_names(entries: Seq<(String, String)>) -> Seq<Seq<char>> {
    entries.map_values(|e: (String, String)| e.1@)
}

/// The names with every repetition after the first dropped, keeping
/// first-seen order.
pub open spec fn dedup_first_seen(names: Seq<Seq<char>>) -> Seq<Seq<char>>
    decreases names,
{
    if names.len() == 0 {
        Seq::empty()
    } else {
        let prefix = dedup_first_seen(names.drop_last());
        if names.drop_last().contains(names.last()) {
            prefix
        } else {
            prefix.push(names.last())
        }
    }
}

/// Deduplication keeps exactly the names that occur.
pub proof fn lemma_dedup_contains(names: Seq<Seq<char>>, x: Seq<char>)
    ensures
        dedup_first_seen(names).contains(x) <==> names.contains(x),
    decreases names.len(),
{
    if names.len() > 0 {
        let t = names.drop_last();
        let p = dedup_first_seen(t);
        let d = dedup_first_seen(names);
        lemma_dedup_contains(t, x);
        assert(names.contains(x) <==> (t.contains(x) || x == names.last())) by {
            if names.contains(x) {
                let i = choose|i: int| 0 <= i < names.len() && names[i] == x;
                if i < names.len() - 1 {
                    assert(t[i] == x);
                    assert(t.contains(x));
                }
            }
            if t.contains(x) {
                let i = choose|i: int| 0 <= i < t.len() && t[i] == x;
                assert(names[i] == x);
                assert(names.contains(x));
            }
            if x == names.last() {
                assert(names[names.len() - 1] == x);
                assert(names.contains(x));
            }
        }
        if t.contains(names.last())  {
            assert(d == p);
        } else {
            assert(d == p.push(names.last()));
            assert(d.contains(x) <==> (p.contains(x) || x == names.last())) by {
                if p.contains(x) {
                    let j = choose|j: int| 0 <= j < p.len() && p[j] == x;
                    assert(d[j] == x);
                    assert(d.contains(x));
                }
                if x == names.last() {
                    assert(d[d.len() - 1] == x);
                    assert(d.contains(x));
                }
                if d.contains(x) {
                    let j = choose|j: int| 0 <= j < d.len() && d[j] == x;
                    if j < p.len() {
                        assert(p[j] == x);
                        assert(p.contains(x));
                    } else {
                        assert(x == names.last());
                    }
                }
            }
        }
    }
}

/// A slot entry resolves cleanly: its interface document lives in
/// exactly one root and every reference inside that document parses.
pub open spec fn entry_ok(roots: Seq<crate::repo::SearchRoot>, name: Seq<char>) -> bool {
    interface_count(roots, name) == 1 && iface_refs_ok(repo_interface(roots, name))
}

/// The references contributed by the interfaces of the named entries.
pub open spec fn entries_ref_keys(roots: Seq<crate::repo::SearchRoot>, names: Seq<Seq<char>>) -> Set<
    TypeRefKey,
>
    decreases names,
{
    if names.len() == 0 {
        Set::empty()
    } else {
        entries_ref_keys(roots, names.drop_last()) + iface_ref_keys(
            repo_interface(roots, names.last()),
        )
    }
}

pub proof fn lemma_entries_ref_keys_prefix(
    roots: Seq<crate::repo::SearchRoot>,
    names: Seq<Seq<char>>,
    i: int,
)
    requires
        0 <= i <= names.len(),
    ensures
        entries_ref_keys(roots, names.take(i)).subset_of(entries_ref_keys(roots, names)),
    decreases names.len() - i,
{
    if i < names.len() {
        lemma_entries_ref_keys_prefix(roots, names, i + 1);
        assert(names.take(i + 1).drop_last() =~= names.take(i));
        assert(entries_ref_keys(roots, names.take(i)).subset_of(
            entries_ref_keys(roots, names.take(i + 1)),
        ));
    } else {
        assert(names.take(i) =~= names);
    }
}

/// Builds, for a manifest's provide or require table, the slot list in
/// table order and the list of distinct interfaces in first-seen order,
/// an interface bound by several slots appearing once.  Collects the
/// type references of every interface used.
pub fn handle_implementations(
    repo: &YamlRepo,
    entries: &Vec<(String, String)>,
    type_refs: &mut Vec<TypeRef>,
) -> (res: Result<(Vec<InterfaceContext>, Vec<SlotContext>), Error>)
    requires
        refs_sorted(old(type_refs)@),
        refs_wf(old(type_refs)@),
    ensures
        refs_sorted(final (type_refs)@),
        refs_wf(final (type_refs)@),
        key_set(old(type_refs)@).subset_of(key_set(final (type_refs)@)),
        match res {
            Ok(r) => {
                &&& forall|i: int|
                    0 <= i < entries@.len() ==> entry_ok(
                        repo.roots@,
                        #[trigger] entry_names(entries@)[i],
                    )
                &&& r.1@.len() == entries@.len()
                &&& forall|i: int|
                    0 <= i < entries@.len() ==> ((#[trigger] r.1@[i]).implementation_id@
                        == entries@[i].0@ && r.1@[i].interface@ == entries@[i].1@)
                &&& r.0@.len() == dedup_first_seen(entry_names(entries@)).len()
                &&& forall|j: int|
                    0 <= j < r.0@.len() ==> iface_ctx_matches(
                        #[trigger] r.0@[j],
                        dedup_first_seen(entry_names(entries@))[j],
                        repo_interface(repo.roots@, dedup_first_seen(entry_names(entries@))[j]),
                    )
                &&& key_set(final (type_refs)@) == key_set(old(type_refs)@) + entries_ref_keys(
                    repo.roots@,
                    entry_names(entries@),
                )
            },
            Err(e) => {
                &&& exists|i: int|
                    0 <= i < entries@.len() && !entry_ok(
                        repo.roots@,
                        #[trigger] entry_names(entries@)[i],
                    ) && (e matches Error::NotFound(m) ==> (interface_count(
                        repo.roots@,
                        entry_names(entries@)[i],
                    ) == 0 && m@ == entry_names(entries@)[i])) && (e matches Error::Ambiguous(m)
                        ==> (interface_count(repo.roots@, entry_names(entries@)[i]) >= 2 && m@
                        == entry_names(entries@)[i]))
                &&& (e is NotFound || e is Ambiguous || e is MalformedReference
                    || e is SchemaConflict)
                &&& key_set(final (type_refs)@).subset_of(
                    key_set(old(type_refs)@) + entries_ref_keys(
                        repo.roots@,
                        entry_names(entries@),
                    ),
                )
            },
        },
{
    let ghost names = entry_names(entries@);
    let mut unique: Vec<InterfaceContext> = Vec::new();
    let mut slots: Vec<SlotContext> = Vec::new();
    let mut seen: Vec<String> = Vec::new();
    let mut i: usize = 0;
    while i < entries.len()
        invariant
            refs_sorted(type_refs@),
            refs_wf(type_refs@),
            0 <= i <= entries@.len(),
            names == entry_names(entries@),
            names.len() == entries@.len(),
            forall|j: int| 0 <= j < i ==> entry_ok(repo.roots@, #[trigger] names[j]),
            slots@.len() == i,
            forall|j: int|
                0 <= j < i ==> ((#[trigger] slots@[j]).implementation_id@ == entries@[j].0@
                    && slots@[j].interface@ == entries@[j].1@),
            crate::text::views_of(seen@) == dedup_first_seen(names.take(i as int)),
            unique@.len() == seen@.len(),
            forall|j: int|
                0 <= j < unique@.len() ==> iface_ctx_matches(
                    #[trigger] unique@[j],
                    dedup_first_seen(names.take(i as int))[j],
                    repo_interface(repo.roots@, dedup_first_seen(names.take(i as int))[j]),
                ),
            key_set(type_refs@) == key_set(old(type_refs)@) + entries_ref_keys(
                repo.roots@,
                names.take(i as int),
            ),
        decreases entries@.len() - i,
    {
        proof {
            assert(names.take(i + 1 as int).drop_last() =~= names.take(i as int));
            assert(names.take(i + 1 as int).last() == names[i as int]);
            assert(names[i as int] == entries@[i as int].1@);
        }
        let interface_name = &entries[i].1;
        let ctx = match InterfaceContext::from_yaml(repo, interface_name.as_str(), type_refs) {
            Ok(c) => c,
            Err(e) => {
                proof {
                    assert(!entry_ok(repo.roots@, names[i as int]));
                    lemma_entries_ref_keys_prefix(repo.roots@, names, i as int);
                    lemma_entries_ref_keys_prefix(repo.roots@, names, i + 1 as int);
                }
                return Err(e);
            },
        };
        let mut already = false;
        let mut j: usize = 0;
        while j < seen.len()
            invariant
                0 <= j <= seen@.len(),
                already <==> exists|m: int|
                    0 <= m < j && (#[trigger] seen@[m]@) == entries@[i as int].1@,
                i < entries@.len(),
                interface_name@ == entries@[i as int].1@,
            decreases seen@.len() - j,
        {
            if crate::text::str_eq(seen[j].as_str(), interface_name.as_str()) {
                proof {
                    assert(seen@[j as int]@ == entries@[i as int].1@);
                }
                already = true;
            }
            j = j + 1;
        }
        proof {
            let taken = names.take(i as int);
            assert(crate::text::views_of(seen@) == dedup_first_seen(taken));
            lemma_dedup_contains(taken, names[i as int]);
            if already {
                let m = choose|m: int| 0 <= m < seen@.len() && seen@[m]@ == names[i as int];
                assert(crate::text::views_of(seen@)[m] == names[i as int]);
                assert(dedup_first_seen(taken).contains(names[i as int]));
                assert(taken.contains(names[i as int]));
            } else {
                if taken.contains(names[i as int]) {
                    assert(dedup_first_seen(taken).contains(names[i as int]));
                    let m = choose|m: int|
                        0 <= m < dedup_first_seen(taken).len() && dedup_first_seen(taken)[m]
                            == names[i as int];
                    assert(seen@[m]@ == names[i as int]);
                    assert(false);
                }
            }
        }
        if !already {
            unique.push(ctx);
            seen.push(interface_name.clone());
            proof {
                assert(crate::text::views_of(seen@) =~= dedup_first_seen(
                    names.take(i as int),
                ).push(names[i as int]));
            }
        }
        slots.push(SlotContext {
            implementation_id: entries[i].0.clone(),
            interface: entries[i].1.clone(),
        });
        i = i + 1;
    }
    proof {
        assert(names.take(names.len() as int) =~= names);
    }
    Ok((unique, slots))
}

/// The target type name of a configuration entry's kind.
pub open spec fn config_type_name(v: ConfigEnum) -> Seq<char> {
    match v {
        ConfigEnum::Boolean { .. } => "bool"@,
        ConfigEnum::Integer { .. } => "i64"@,
        ConfigEnum::Number => "f64"@,
        ConfigEnum::String { .. } => "String"@,
    }
}

/// The flattened context agrees with the configuration entry.
pub open spec fn config_ctx_matches(c: ArgumentContext, name: Seq<char>, e: ConfigEntry) -> bool {
    &&& c.name@ == name
    &&& opt_chars(c.description) == opt_chars(e.description)
    &&& c.data_type@ == config_type_name(e.value)
}

/// Projects configuration entries to argument contexts, in entry order:
/// the entry's kind decides the target type name, and its bounds are
/// advisory metadata that no longer appear at this layer.
pub fn emit_config(config: &Vec<(String, ConfigEntry)>) -> (r: Vec<ArgumentContext>)
    ensures
        r@.len() == config@.len(),
        forall|i: int|
            0 <= i < config@.len() ==> config_ctx_matches(
                #[trigger] r@[i],
                config@[i].0@,
                config@[i].1,
            ),
{
    let mut r: Vec<ArgumentContext> = Vec::new();
    let mut i: usize = 0;
    while i < config.len()
        invariant
            0 <= i <= config@.len(),
            r@.len() == i,
            forall|j: int|
                0 <= j < i ==> config_ctx_matches(#[trigger] r@[j], config@[j].0@, config@[j].1),
        decreases config@.len() - i,
    {
        let entry = &config[i].1;
        let data_type = match &entry.value {
            ConfigEnum::Boolean { .. } => String::from_str("bool"),
            ConfigEnum::Integer { .. } => String::from_str("i64"),
            ConfigEnum::Number => String::from_str("f64"),
            ConfigEnum::String { .. } => String::from_str("String"),
        };
        r.push(ArgumentContext {
            name: config[i].0.clone(),
            description: clone_opt_string(&entry.description),
            data_type,
        });
        i = i + 1;
    }
    r
}

} // verus!

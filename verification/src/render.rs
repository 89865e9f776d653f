//! The flat, renderer-ready projection of one module.
//!
//! `build_render_context` drives the whole pipeline: it flattens the
//! manifest's provide and require tables, resolves the transitive
//! closure of every type reference their interfaces use, and bundles
//! the result with the module- and slot-level configuration.

use crate::context::dedup_first_seen;
use crate::context::emit_config;
use crate::context::entries_ref_keys;
use crate::context::entry_names;
use crate::context::entry_ok;
use crate::context::handle_implementations;
use crate::context::iface_ctx_matches;
use crate::context::config_ctx_matches;
use crate::context::ArgumentContext;
use crate::context::InterfaceContext;
use crate::context::SlotContext;
use crate::repo::repo_interface;
use crate::repo::SearchRoot;
use crate::repo::YamlRepo;
use crate::resolve::def_ok;
use crate::resolve::reachable;
use crate::resolve::resolve_types;
use crate::resolve::tree_count_key;
use crate::resolve::tree_wf;
use crate::resolve::TypeModuleContext;
use crate::schema::manifest::ConfigEntry;
use crate::schema::manifest::Manifest;
use crate::schema::manifest::ProvidesEntry;
use crate::schema::manifest::RequiresEntry;
use crate::typeref::type_ref_wf;
use crate::typeref::TypeRefKey;
use crate::Error;
use vstd::prelude::*;

verus! {

/// The configuration entries of one provided slot.
#[derive(Debug, Clone, PartialEq)]
pub struct ConfigContext {
    pub name: String,
    pub config: Vec<ArgumentContext>,
}

/// Everything a template needs to render one module.
#[derive(Debug, PartialEq)]
pub struct RenderContext {
    /// The distinct interfaces the module implements, first-seen order.
    pub provided_interfaces: Vec<InterfaceContext>,
    /// The distinct interfaces the module depends on, first-seen order.
    pub required_interfaces: Vec<InterfaceContext>,
    /// The provide table's slots, in table order.
    pub provide_slots: Vec<SlotContext>,
    /// The require table's slots, in table order.
    pub require_slots: Vec<SlotContext>,
    /// The resolved named types, organized by module path.
    pub types: TypeModuleContext,
    /// The module-level configuration entries, in key order.
    pub module_config: Vec<ArgumentContext>,
    /// Per-slot configuration, for the slots that have any.
    pub provided_config: Vec<ConfigContext>,
}

/// The interface names of the provide table, in table order.
pub open spec fn provide_names(provides: Seq<(String, ProvidesEntry)>) -> Seq<Seq<char>> {
    provides.map_values(|e: (String, ProvidesEntry)| e.1.interface@)
}

/// The interface names of the require table, in table order.
pub open spec fn require_names(req_table: Seq<(String, RequiresEntry)>) -> Seq<Seq<char>> {
    req_table.map_values(|e: (String, RequiresEntry)| e.1.interface@)
}

/// Every type reference the manifest's interfaces contribute.
pub open spec fn manifest_ref_keys(roots: Seq<SearchRoot>, m: Manifest) -> Set<TypeRefKey> {
    entries_ref_keys(roots, provide_names(m.provides@)) + entries_ref_keys(
        roots,
        require_names(m.requires@),
    )
}

/// The manifest resolves cleanly: every slot's interface document lives
/// in exactly one root with sound references, and every reachable type
/// definition resolves.
pub open spec fn manifest_ok(roots: Seq<SearchRoot>, m: Manifest) -> bool {
    &&& forall|i: int|
        0 <= i < m.provides@.len() ==> entry_ok(roots, #[trigger] provide_names(m.provides@)[i])
    &&& forall|i: int|
        0 <= i < m.requires@.len() ==> entry_ok(roots, #[trigger] require_names(m.requires@)[i])
    &&& forall|t: TypeRefKey|
        type_ref_wf(t) && #[trigger] reachable(roots, manifest_ref_keys(roots, m), t) ==> def_ok(
            roots,
            t,
        )
}

/// The provide entries that carry configuration, in table order.
pub open spec fn slots_with_config(provides: Seq<(String, ProvidesEntry)>) -> Seq<
    (String, ProvidesEntry),
>
    decreases provides,
{
    if provides.len() == 0 {
        Seq::empty()
    } else {
        let p = slots_with_config(provides.drop_last());
        if provides.last().1.config@.len() > 0 {
            p.push(provides.last())
        } else {
            p
        }
    }
}

/// Builds the full render context of a manifest.  Succeeds if and only
/// if the manifest resolves cleanly; every part of the result is pinned
/// to the manifest and the repository, so the same inputs always yield
/// the same context.
pub fn build_render_context(manifest: &Manifest, repo: &YamlRepo) -> (res: Result<
    RenderContext,
    Error,
>)
    ensures
        match res {
            Ok(rc) => {
                &&& manifest_ok(repo.roots@, *manifest)
                &&& rc.provide_slots@.len() == manifest.provides@.len()
                &&& forall|i: int|
                    0 <= i < manifest.provides@.len() ==> ((#[trigger] rc.provide_slots@[i]).implementation_id@
                        == manifest.provides@[i].0@ && rc.provide_slots@[i].interface@
                        == manifest.provides@[i].1.interface@)
                &&& rc.require_slots@.len() == manifest.requires@.len()
                &&& forall|i: int|
                    0 <= i < manifest.requires@.len() ==> ((#[trigger] rc.require_slots@[i]).implementation_id@
                        == manifest.requires@[i].0@ && rc.require_slots@[i].interface@
                        == manifest.requires@[i].1.interface@)
                &&& rc.provided_interfaces@.len() == dedup_first_seen(
                    provide_names(manifest.provides@),
                ).len()
                &&& forall|j: int|
                    0 <= j < rc.provided_interfaces@.len() ==> iface_ctx_matches(
                        #[trigger] rc.provided_interfaces@[j],
                        dedup_first_seen(provide_names(manifest.provides@))[j],
                        repo_interface(
                            repo.roots@,
                            dedup_first_seen(provide_names(manifest.provides@))[j],
                        ),
                    )
                &&& rc.required_interfaces@.len() == dedup_first_seen(
                    require_names(manifest.requires@),
                ).len()
                &&& forall|j: int|
                    0 <= j < rc.required_interfaces@.len() ==> iface_ctx_matches(
                        #[trigger] rc.required_interfaces@[j],
                        dedup_first_seen(require_names(manifest.requires@))[j],
                        repo_interface(
                            repo.roots@,
                            dedup_first_seen(require_names(manifest.requires@))[j],
                        ),
                    )
                &&& tree_wf(rc.types)
                &&& forall|t: TypeRefKey|
                    type_ref_wf(t) ==> #[trigger] tree_count_key(rc.types, t) == (if reachable(
                        repo.roots@,
                        manifest_ref_keys(repo.roots@, *manifest),
                        t,
                    ) {
                        1nat
                    } else {
                        0nat
                    })
                &&& rc.module_config@.len() == manifest.config@.len()
                &&& forall|i: int|
                    0 <= i < manifest.config@.len() ==> config_ctx_matches(
                        #[trigger] rc.module_config@[i],
                        manifest.config@[i].0@,
                        manifest.config@[i].1,
                    )
                &&& rc.provided_config@.len() == slots_with_config(manifest.provides@).len()
                &&& forall|j: int|
                    0 <= j < rc.provided_config@.len() ==> ((#[trigger] rc.provided_config@[j]).name@
                        == slots_with_config(manifest.provides@)[j].0@
                        && rc.provided_config@[j].config@.len() == slots_with_config(
                        manifest.provides@,
                    )[j].1.config@.len() && (forall|i: int|
                        0 <= i < rc.provided_config@[j].config@.len() ==> config_ctx_matches(
                            #[trigger] rc.provided_config@[j].config@[i],
                            slots_with_config(manifest.provides@)[j].1.config@[i].0@,
                            slots_with_config(manifest.provides@)[j].1.config@[i].1,
                        )))
            },
            Err(e) => {
                &&& !manifest_ok(repo.roots@, *manifest)
                &&& (e is NotFound || e is Ambiguous || e is MalformedReference
                    || e is SchemaConflict)
            },
        },
{
    // Per-slot configuration for the provide entries that carry any.
    let ghost pseq = manifest.provides@;
    let mut provided_config: Vec<ConfigContext> = Vec::new();
    let mut i: usize = 0;
    proof {
        assert(pseq.take(0) =~= Seq::<(String, ProvidesEntry)>::empty());
    }
    while i < manifest.provides.len()
        invariant
            0 <= i <= pseq.len(),
            pseq == manifest.provides@,
            provided_config@.len() == slots_with_config(pseq.take(i as int)).len(),
            forall|j: int|
                0 <= j < provided_config@.len() ==> ((#[trigger] provided_config@[j]).name@
                    == slots_with_config(pseq.take(i as int))[j].0@
                    && provided_config@[j].config@.len() == slots_with_config(
                    pseq.take(i as int),
                )[j].1.config@.len() && (forall|k: int|
                    0 <= k < provided_config@[j].config@.len() ==> config_ctx_matches(
                        #[trigger] provided_config@[j].config@[k],
                        slots_with_config(pseq.take(i as int))[j].1.config@[k].0@,
                        slots_with_config(pseq.take(i as int))[j].1.config@[k].1,
                    ))),
        decreases pseq.len() - i,
    {
        proof {
            assert(pseq.take(i + 1 as int).drop_last() =~= pseq.take(i as int));
            assert(pseq.take(i + 1 as int).last() == pseq[i as int]);
        }
        let entry = &manifest.provides[i];
        if entry.1.config.len() > 0 {
            let config = emit_config(&entry.1.config);
            provided_config.push(ConfigContext { name: entry.0.clone(), config });
        }
        i = i + 1;
    }
    proof {
        assert(pseq.take(pseq.len() as int) =~= pseq);
    }

    // The slot tables as plain name pairs.
    let mut provide_pairs: Vec<(String, String)> = Vec::new();
    let mut pi: usize = 0;
    while pi < manifest.provides.len()
        invariant
            0 <= pi <= manifest.provides@.len(),
            provide_pairs@.len() == pi,
            forall|j: int|
                0 <= j < pi ==> ((#[trigger] provide_pairs@[j]).0@ == manifest.provides@[j].0@
                    && provide_pairs@[j].1@ == manifest.provides@[j].1.interface@),
        decreases manifest.provides@.len() - pi,
    {
        provide_pairs.push(
            (manifest.provides[pi].0.clone(), manifest.provides[pi].1.interface.clone()),
        );
        pi = pi + 1;
    }
    let mut require_pairs: Vec<(String, String)> = Vec::new();
    let mut ri: usize = 0;
    while ri < manifest.requires.len()
        invariant
            0 <= ri <= manifest.requires@.len(),
            require_pairs@.len() == ri,
            forall|j: int|
                0 <= j < ri ==> ((#[trigger] require_pairs@[j]).0@ == manifest.requires@[j].0@
                    && require_pairs@[j].1@ == manifest.requires@[j].1.interface@),
        decreases manifest.requires@.len() - ri,
    {
        require_pairs.push(
            (manifest.requires[ri].0.clone(), manifest.requires[ri].1.interface.clone()),
        );
        ri = ri + 1;
    }
    proof {
        assert(entry_names(provide_pairs@) =~= provide_names(manifest.provides@));
        assert(entry_names(require_pairs@) =~= require_names(manifest.requires@));
    }

    // Flatten the interfaces of both tables, collecting type references.
    let mut type_refs: Vec<crate::typeref::TypeRef> = Vec::new();
    let (provided_interfaces, provide_slots) = match handle_implementations(
        repo,
        &provide_pairs,
        &mut type_refs,
    ) {
        Ok(r) => r,
        Err(e) => {
            return Err(e);
        },
    };
    let (required_interfaces, require_slots) = match handle_implementations(
        repo,
        &require_pairs,
        &mut type_refs,
    ) {
        Ok(r) => r,
        Err(e) => {
            return Err(e);
        },
    };
    proof {
        assert(crate::refset::key_set(type_refs@) =~= manifest_ref_keys(repo.roots@, *manifest));
    }

    // Resolve the transitive closure of every referenced type.
    let types = match resolve_types(repo, type_refs) {
        Ok(t) => t,
        Err(e) => {
            return Err(e);
        },
    };

    let module_config = emit_config(&manifest.config);
    Ok(
        RenderContext {
            provided_interfaces,
            required_interfaces,
            provide_slots,
            require_slots,
            types,
            module_config,
            provided_config,
        },
    )
}

} // verus!

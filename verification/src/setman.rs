//! The sync orchestrator: resolves applications from the registry and
//! drives the file-transfer rules between each application's real
//! configuration path, its local staging slot, and the mirror clone.
//!
//! Nothing here touches a file or the network itself: every operation is
//! stated and carried out over the transfer model, and the caller
//! performs the same steps on the machine.

use crate::fileman::{
    contains_name, first_index_of_name, matched_by_pattern, remove_named, App, AppView, Apps,
};
use crate::paths::spec_join;
use crate::transfer::{
    copy_files, remove_files, spec_copy_files, spec_remove_files, FsState, FsView, TransferError,
};
use vstd::prelude::*;

verus! {

/// One operation of the manager, with what the operation needs already in
/// hand: a new application is built before it is inserted, a modification
/// carries the replacement value, and syncing is driven by the caller's
/// directory scans.
pub enum SetManAction<'a> {
    /// Copy one application's files from its staging slot to its real
    /// configuration path.
    Install(&'a str),
    /// Delete one application's files at its real configuration path.
    Uninstall(&'a str),
    /// Copy one application's files from its real configuration path to
    /// its staging slot.
    Save(&'a str),
    /// Replace one field of a registered application.
    Modify(&'a str, AppModification),
    /// Take one application out of the registry and delete its staging
    /// slot's files.
    Remove(&'a str),
    /// Install every registered application, but those named.
    InstallAll(&'a Vec<String>),
    /// Uninstall every registered application, but those named.
    UninstallAll(&'a Vec<String>),
    /// Save every registered application, but those named.
    SaveAll(&'a Vec<String>),
    /// Register a new application.
    New(App),
    /// Publish the staging tree into the mirror clone.
    SyncUp,
    /// Adopt the mirror clone's content into the staging tree.
    SyncDown,
}

/// One replacement of a field of an application.
pub enum AppModification {
    /// A new name.
    Name(String),
    /// A new configuration path, already resolved to an absolute one.
    ConfigPath(String),
    /// A new file name at the given position of the list.
    FileName(usize, String),
}

/// Which applications a listing shows.
pub enum ListOptions<'a> {
    /// The named applications, or all of them.
    Literal(&'a Option<Vec<&'a str>>),
    /// The applications whose name a regular expression matches.
    Regex(&'a str),
}

/// A failure of one operation of the manager.
#[derive(Debug)]
pub enum SetManError {
    /// The action does not belong to this operation.
    InvalidOption,
    /// A named application is not registered.
    NotFound,
    /// An application with that name is already registered.
    Duplicate,
    /// A file transfer failed.
    Transfer(TransferError),
}

/// A transfer result carried up as the operation's result.
pub open spec fn transfer_result(cr: Result<(), TransferError>) -> Result<(), SetManError> {
    match cr {
        Ok(u) => Ok(u),
        Err(e) => Err(SetManError::Transfer(e)),
    }
}

/// The source and destination of one application's transfer: between its
/// staging slot under `settings` and its real configuration path.
pub open spec fn app_transfer_ends(a: AppView, settings: Seq<char>, from_local: bool) -> (
    Seq<char>,
    Seq<char>,
) {
    if from_local {
        (spec_join(settings, a.name), a.config_path)
    } else {
        (a.config_path, spec_join(settings, a.name))
    }
}

/// What one application's transfer makes of a state.
pub open spec fn spec_copy_app_files(
    v: FsView,
    a: AppView,
    settings: Seq<char>,
    from_local: bool,
) -> (FsView, Result<(), TransferError>) {
    spec_copy_files(
        v,
        a.file_names,
        app_transfer_ends(a, settings, from_local).0,
        app_transfer_ends(a, settings, from_local).1,
    )
}

/// Copies one application's files between its staging slot and its real
/// configuration path: towards the real path on `from_local` (install),
/// towards the staging slot otherwise (save).
pub fn copy_app_files(fs: &mut FsState, app: &App, settings_path: &str, from_local: bool) -> (r:
    Result<(), TransferError>)
    requires
        old(fs).wf(),
    ensures
        final(fs).wf(),
        final(fs)@ == spec_copy_app_files(old(fs)@, app@, settings_path@, from_local).0,
        r == spec_copy_app_files(old(fs)@, app@, settings_path@, from_local).1,
{
    let local_path = crate::paths::join_path(settings_path, app.name.as_str());
    if from_local {
        copy_files(fs, &app.file_names, local_path.as_str(), app.config_path.as_str())
    } else {
        copy_files(fs, &app.file_names, app.config_path.as_str(), local_path.as_str())
    }
}

/// The application with one field replaced.
pub open spec fn spec_modified_app(a: AppView, m: AppModification) -> AppView {
    match m {
        AppModification::Name(n) => AppView { name: n@, ..a },
        AppModification::ConfigPath(p) => AppView { config_path: p@, ..a },
        AppModification::FileName(i, f) => AppView {
            file_names: a.file_names.update(i as int, f@),
            ..a
        },
    }
}

/// Whether the modification addresses an existing position.
pub open spec fn mod_valid(a: AppView, m: AppModification) -> bool {
    match m {
        AppModification::FileName(i, f) => (i as int) < a.file_names.len(),
        _ => true,
    }
}

/// What modifying one application makes of the registry: nothing without
/// the user's confirmation; `NotFound`, an invalid position and a name
/// already taken each fail and leave the registry unchanged; otherwise
/// the old entry leaves and the modified one is appended.
pub open spec fn spec_modify(
    items: Seq<AppView>,
    name: Seq<char>,
    m: AppModification,
    confirmed: bool,
) -> (Seq<AppView>, Result<(), SetManError>) {
    if !contains_name(items, name) {
        (items, Err(SetManError::NotFound))
    } else {
        let a = items[first_index_of_name(items, name)];
        if !mod_valid(a, m) {
            (items, Err(SetManError::InvalidOption))
        } else if !confirmed {
            (items, Ok(()))
        } else {
            let a2 = spec_modified_app(a, m);
            let rest = remove_named(items, name);
            if contains_name(rest, a2.name) {
                (items, Err(SetManError::Duplicate))
            } else {
                (rest.push(a2), Ok(()))
            }
        }
    }
}

/// A pushed entry is found by name exactly when it carries the name or
/// the entries before it do.
proof fn lemma_contains_name_push(items: Seq<AppView>, a: AppView, x: Seq<char>)
    ensures
        contains_name(items.push(a), x) <==> (contains_name(items, x) || a.name == x),
{
    if contains_name(items.push(a), x) {
        let i = choose|i: int| 0 <= i < items.push(a).len() && items.push(a)[i].name == x;
        if i < items.len() {
            assert(items[i].name == x);
        }
    }
    if contains_name(items, x) {
        let i = choose|i: int| 0 <= i < items.len() && items[i].name == x;
        assert(items.push(a)[i].name == x);
    }
    if a.name == x {
        assert(items.push(a)[items.len() as int].name == x);
    }
}

/// Law: after removing a name, a name is found exactly when it differs
/// from the removed one and was found before.
pub proof fn lemma_remove_named_contains(items: Seq<AppView>, name: Seq<char>, x: Seq<char>)
    ensures
        contains_name(remove_named(items, name), x) <==> (x != name && contains_name(items, x)),
    decreases items.len(),
{
    if items.len() > 0 {
        lemma_remove_named_contains(items.drop_last(), name, x);
        if items.last().name != name {
            lemma_contains_name_push(remove_named(items.drop_last(), name), items.last(), x);
        }
        assert(contains_name(items.drop_last(), x) || items.last().name == x
            ==> contains_name(items, x)) by {
            if contains_name(items.drop_last(), x) {
                let i = choose|i: int|
                    0 <= i < items.drop_last().len() && items.drop_last()[i].name == x;
                assert(items[i].name == x);
            }
            if items.last().name == x {
                assert(items[items.len() - 1].name == x);
            }
        }
        if contains_name(items, x) {
            let i = choose|i: int| 0 <= i < items.len() && items[i].name == x;
            if i < items.len() - 1 {
                assert(items.drop_last()[i].name == x);
            }
        }
    }
}

/// Replaces one field of the named application, after the user confirms:
/// the old entry leaves the registry and the modified one is appended.
/// Without confirmation nothing changes; an unknown name, a position past
/// the file list and a name already taken each fail, leaving the registry
/// unchanged.
pub fn modify_application(
    apps: &mut Apps,
    app_name: &str,
    modification: AppModification,
    confirmed: bool,
) -> (r: Result<(), SetManError>)
    ensures
        final(apps)@ == spec_modify(old(apps)@, app_name@, modification, confirmed).0,
        r == spec_modify(old(apps)@, app_name@, modification, confirmed).1,
{
    let app = match apps.find_app_by_name(app_name) {
        Ok(a) => a,
        Err(_) => {
            return Err(SetManError::NotFound);
        },
    };
    let ghost a0 = old(apps)@[first_index_of_name(old(apps)@, app_name@)];
    let new_app = match modification {
        AppModification::Name(n) => App {
            name: n,
            config_path: app.config_path,
            file_names: app.file_names,
        },
        AppModification::ConfigPath(p) => App {
            name: app.name,
            config_path: p,
            file_names: app.file_names,
        },
        AppModification::FileName(i, f) => {
            if i >= app.file_names.len() {
                return Err(SetManError::InvalidOption);
            }
            let mut file_names = app.file_names;
            vstd::pervasive::VecAdditionalExecFns::set(&mut file_names, i, f);
            App { name: app.name, config_path: app.config_path, file_names }
        },
    };
    proof {
        assert(new_app@.file_names =~= spec_modified_app(a0, modification).file_names);
        assert(new_app@ == spec_modified_app(a0, modification));
    }
    if !confirmed {
        return Ok(());
    }
    let needle_old = String::from_str(app_name);
    let mut j: usize = 0;
    while j < apps.items.len()
        invariant
            apps == old(apps),
            needle_old@ == app_name@,
            j <= apps.items.len(),
            confirmed,
            contains_name(old(apps)@, app_name@),
            a0 == old(apps)@[first_index_of_name(old(apps)@, app_name@)],
            mod_valid(a0, modification),
            new_app@ == spec_modified_app(a0, modification),
            forall|k: int|
                0 <= k < j ==> !(apps@[k].name != app_name@ && apps@[k].name
                    == new_app@.name),
        decreases apps.items.len() - j,
    {
        let same_as_old = apps.items[j].name == needle_old;
        if !same_as_old && apps.items[j].name == new_app.name {
            proof {
                lemma_remove_named_contains(apps@, app_name@, new_app@.name);
                assert(apps@[j as int].name == new_app@.name);
                assert(contains_name(apps@, new_app@.name));
            }
            return Err(SetManError::Duplicate);
        }
        j = j + 1;
    }
    proof {
        lemma_remove_named_contains(apps@, app_name@, new_app@.name);
        assert(!contains_name(remove_named(apps@, app_name@), new_app@.name)) by {
            if new_app@.name != app_name@ && contains_name(apps@, new_app@.name) {
                let k = choose|k: int|
                    0 <= k < apps@.len() && apps@[k].name == new_app@.name;
                assert(!(apps@[k].name != app_name@ && apps@[k].name == new_app@.name));
            }
        }
    }
    apps.remove_app(app_name);
    match apps.save_new_app(new_app) {
        Ok(u) => Ok(u),
        Err(e) => {
            proof {
                assert(false);
            }
            Err(SetManError::Duplicate)
        },
    }
}

/// Carries out one operation on one application: resolves it from the
/// registry and moves, deletes or rewrites what the operation says.
/// Deleting — alone or with the registry entry — asks for the user's
/// prior confirmation and does nothing without it. Actions over all
/// applications and the sync actions do not belong here.
pub fn app_action(
    apps: &mut Apps,
    fs: &mut FsState,
    settings_path: &str,
    action: SetManAction,
    confirmed: bool,
) -> (r: Result<(), SetManError>)
    requires
        old(fs).wf(),
    ensures
        final(fs).wf(),
        match action {
            SetManAction::Install(name) => {
                &&& final(apps)@ == old(apps)@
                &&& if contains_name(old(apps)@, name@) {
                    let a = old(apps)@[first_index_of_name(old(apps)@, name@)];
                    let vr = spec_copy_app_files(old(fs)@, a, settings_path@, true);
                    final(fs)@ == vr.0 && r == transfer_result(vr.1)
                } else {
                    final(fs)@ == old(fs)@ && r == Err::<(), SetManError>(SetManError::NotFound)
                }
            },
            SetManAction::Save(name) => {
                &&& final(apps)@ == old(apps)@
                &&& if contains_name(old(apps)@, name@) {
                    let a = old(apps)@[first_index_of_name(old(apps)@, name@)];
                    let vr = spec_copy_app_files(old(fs)@, a, settings_path@, false);
                    final(fs)@ == vr.0 && r == transfer_result(vr.1)
                } else {
                    final(fs)@ == old(fs)@ && r == Err::<(), SetManError>(SetManError::NotFound)
                }
            },
            SetManAction::Uninstall(name) => {
                &&& final(apps)@ == old(apps)@
                &&& if !confirmed {
                    final(fs)@ == old(fs)@ && r == Ok::<(), SetManError>(())
                } else if contains_name(old(apps)@, name@) {
                    let a = old(apps)@[first_index_of_name(old(apps)@, name@)];
                    final(fs)@ == spec_remove_files(old(fs)@, a.config_path) && r == Ok::<
                        (),
                        SetManError,
                    >(())
                } else {
                    final(fs)@ == old(fs)@ && r == Err::<(), SetManError>(SetManError::NotFound)
                }
            },
            SetManAction::Remove(name) => {
                if !confirmed {
                    final(apps)@ == old(apps)@ && final(fs)@ == old(fs)@ && r == Ok::<
                        (),
                        SetManError,
                    >(())
                } else {
                    &&& final(apps)@ == remove_named(old(apps)@, name@)
                    &&& final(fs)@ == spec_remove_files(
                        old(fs)@,
                        spec_join(settings_path@, name@),
                    )
                    &&& r == Ok::<(), SetManError>(())
                }
            },
            SetManAction::New(app) => {
                &&& final(fs)@ == old(fs)@
                &&& if contains_name(old(apps)@, app@.name) {
                    final(apps)@ == old(apps)@ && r == Err::<(), SetManError>(
                        SetManError::Duplicate,
                    )
                } else {
                    final(apps)@ == old(apps)@.push(app@) && r == Ok::<(), SetManError>(())
                }
            },
            SetManAction::Modify(name, m) => {
                &&& final(fs)@ == old(fs)@
                &&& final(apps)@ == spec_modify(old(apps)@, name@, m, confirmed).0
                &&& r == spec_modify(old(apps)@, name@, m, confirmed).1
            },
            _ => {
                final(apps)@ == old(apps)@ && final(fs)@ == old(fs)@ && r == Err::<
                    (),
                    SetManError,
                >(SetManError::InvalidOption)
            },
        },
{
    match action {
        SetManAction::Install(name) => {
            let app = match apps.find_app_by_name(name) {
                Ok(a) => a,
                Err(_) => {
                    return Err(SetManError::NotFound);
                },
            };
            match copy_app_files(fs, &app, settings_path, true) {
                Ok(u) => Ok(u),
                Err(e) => Err(SetManError::Transfer(e)),
            }
        },
        SetManAction::Save(name) => {
            let app = match apps.find_app_by_name(name) {
                Ok(a) => a,
                Err(_) => {
                    return Err(SetManError::NotFound);
                },
            };
            match copy_app_files(fs, &app, settings_path, false) {
                Ok(u) => Ok(u),
                Err(e) => Err(SetManError::Transfer(e)),
            }
        },
        SetManAction::Uninstall(name) => {
            if !confirmed {
                return Ok(());
            }
            let app = match apps.find_app_by_name(name) {
                Ok(a) => a,
                Err(_) => {
                    return Err(SetManError::NotFound);
                },
            };
            remove_files(fs, app.config_path.as_str());
            Ok(())
        },
        SetManAction::Remove(name) => {
            if !confirmed {
                return Ok(());
            }
            apps.remove_app(name);
            let app_local_path = crate::paths::join_path(settings_path, name);
            remove_files(fs, app_local_path.as_str());
            Ok(())
        },
        SetManAction::New(app) => {
            match apps.save_new_app(app) {
                Ok(u) => Ok(u),
                Err(_) => Err(SetManError::Duplicate),
            }
        },
        SetManAction::Modify(name, m) => modify_application(apps, name, m, confirmed),
        _ => Err(SetManError::InvalidOption),
    }
}

/// The operation an action over all applications repeats.
#[derive(Clone, Copy)]
pub enum AllKind {
    /// Copy staging to the real path.
    Install,
    /// Delete the files at the real path.
    Uninstall,
    /// Copy the real path to staging.
    Save,
}

/// What one operation over every registered application, but the named
/// ones, makes of a state: the entries are taken in registry order, a
/// skipped name is passed over, and the batch stops at the first failing
/// transfer, leaving what was already done in place.
pub open spec fn spec_all_action(
    v: FsView,
    items: Seq<AppView>,
    skip: Seq<Seq<char>>,
    settings: Seq<char>,
    kind: AllKind,
) -> (FsView, Result<(), SetManError>)
    decreases items.len(),
{
    if items.len() == 0 {
        (v, Ok(()))
    } else {
        let a = items[0];
        let rest = items.drop_first();
        if skip.contains(a.name) {
            spec_all_action(v, rest, skip, settings, kind)
        } else {
            match kind {
                AllKind::Install => {
                    let vr = spec_copy_app_files(v, a, settings, true);
                    if vr.1 is Err {
                        (vr.0, transfer_result(vr.1))
                    } else {
                        spec_all_action(vr.0, rest, skip, settings, kind)
                    }
                },
                AllKind::Save => {
                    let vr = spec_copy_app_files(v, a, settings, false);
                    if vr.1 is Err {
                        (vr.0, transfer_result(vr.1))
                    } else {
                        spec_all_action(vr.0, rest, skip, settings, kind)
                    }
                },
                AllKind::Uninstall => spec_all_action(
                    spec_remove_files(v, a.config_path),
                    rest,
                    skip,
                    settings,
                    kind,
                ),
            }
        }
    }
}

/// Whether the list holds the name.
fn name_in_list(list: &Vec<String>, name: &String) -> (r: bool)
    ensures
        r == list.deep_view().contains(name@),
{
    let mut i: usize = 0;
    while i < list.len()
        invariant
            i <= list.len(),
            forall|k: int| 0 <= k < i ==> list.deep_view()[k] != name@,
        decreases list.len() - i,
    {
        if list[i] == *name {
            proof {
                assert(list.deep_view()[i as int] == name@);
            }
            return true;
        }
        i = i + 1;
    }
    proof {
        if list.deep_view().contains(name@) {
            let k = choose|k: int|
                0 <= k < list.deep_view().len() && list.deep_view()[k] == name@;
            assert(list.deep_view()[k] != name@);
        }
    }
    false
}

/// Runs one operation over every registered application but the named
/// ones, in registry order, stopping at the first failing transfer.
fn run_all_apps(
    apps: &Apps,
    fs: &mut FsState,
    skip: &Vec<String>,
    settings_path: &str,
    kind: AllKind,
) -> (r: Result<(), SetManError>)
    requires
        old(fs).wf(),
    ensures
        final(fs).wf(),
        final(fs)@ == spec_all_action(
            old(fs)@,
            apps@,
            skip.deep_view(),
            settings_path@,
            kind,
        ).0,
        r == spec_all_action(old(fs)@, apps@, skip.deep_view(), settings_path@, kind).1,
{
    let ghost skipv = skip.deep_view();
    let ghost v0 = old(fs)@;
    proof {
        assert(apps@.skip(0) =~= apps@);
    }
    let mut i: usize = 0;
    while i < apps.items.len()
        invariant
            fs.wf(),
            i <= apps.items.len(),
            v0 == old(fs)@,
            skipv == skip.deep_view(),
            spec_all_action(v0, apps@, skipv, settings_path@, kind) == spec_all_action(
                fs@,
                apps@.skip(i as int),
                skipv,
                settings_path@,
                kind,
            ),
        decreases apps.items.len() - i,
    {
        let ghost suffix = apps@.skip(i as int);
        proof {
            assert(suffix.len() > 0);
            assert(suffix[0] == apps@[i as int]);
            assert(suffix.drop_first() =~= apps@.skip(i + 1 as int));
        }
        let app = &apps.items[i];
        let ghost pre = fs@;
        if !name_in_list(skip, &app.name) {
            match kind {
                AllKind::Install => {
                    match copy_app_files(fs, app, settings_path, true) {
                        Ok(u) => {},
                        Err(e) => {
                            proof {
                                let vr = spec_copy_app_files(
                                    pre,
                                    apps@[i as int],
                                    settings_path@,
                                    true,
                                );
                                assert(spec_all_action(pre, suffix, skipv, settings_path@, kind)
                                    == (vr.0, transfer_result(vr.1)));
                            }
                            return Err(SetManError::Transfer(e));
                        },
                    }
                },
                AllKind::Save => {
                    match copy_app_files(fs, app, settings_path, false) {
                        Ok(u) => {},
                        Err(e) => {
                            proof {
                                let vr = spec_copy_app_files(
                                    pre,
                                    apps@[i as int],
                                    settings_path@,
                                    false,
                                );
                                assert(spec_all_action(pre, suffix, skipv, settings_path@, kind)
                                    == (vr.0, transfer_result(vr.1)));
                            }
                            return Err(SetManError::Transfer(e));
                        },
                    }
                },
                AllKind::Uninstall => {
                    remove_files(fs, app.config_path.as_str());
                },
            }
        }
        i = i + 1;
    }
    proof {
        assert(apps@.skip(apps.items.len() as int) =~= Seq::<AppView>::empty());
    }
    Ok(())
}

/// Carries out one operation over every registered application,
/// optionally skipping named ones: install all, uninstall all — after the
/// user confirms — or save all. The batch takes the registry's order and
/// aborts on the first failure, leaving what was already done in place.
/// Other actions do not belong here.
pub fn all_apps_action(
    apps: &Apps,
    fs: &mut FsState,
    settings_path: &str,
    action: SetManAction,
    confirmed: bool,
) -> (r: Result<(), SetManError>)
    requires
        old(fs).wf(),
    ensures
        final(fs).wf(),
        match action {
            SetManAction::InstallAll(skip) => {
                &&& final(fs)@ == spec_all_action(
                    old(fs)@,
                    apps@,
                    skip.deep_view(),
                    settings_path@,
                    AllKind::Install,
                ).0
                &&& r == spec_all_action(
                    old(fs)@,
                    apps@,
                    skip.deep_view(),
                    settings_path@,
                    AllKind::Install,
                ).1
            },
            SetManAction::SaveAll(skip) => {
                &&& final(fs)@ == spec_all_action(
                    old(fs)@,
                    apps@,
                    skip.deep_view(),
                    settings_path@,
                    AllKind::Save,
                ).0
                &&& r == spec_all_action(
                    old(fs)@,
                    apps@,
                    skip.deep_view(),
                    settings_path@,
                    AllKind::Save,
                ).1
            },
            SetManAction::UninstallAll(skip) => {
                if !confirmed {
                    final(fs)@ == old(fs)@ && r == Ok::<(), SetManError>(())
                } else {
                    &&& final(fs)@ == spec_all_action(
                        old(fs)@,
                        apps@,
                        skip.deep_view(),
                        settings_path@,
                        AllKind::Uninstall,
                    ).0
                    &&& r == spec_all_action(
                        old(fs)@,
                        apps@,
                        skip.deep_view(),
                        settings_path@,
                        AllKind::Uninstall,
                    ).1
                }
            },
            _ => {
                final(fs)@ == old(fs)@ && r == Err::<(), SetManError>(SetManError::InvalidOption)
            },
        },
{
    match action {
        SetManAction::InstallAll(skip) => run_all_apps(apps, fs, skip, settings_path, AllKind::Install),
        SetManAction::SaveAll(skip) => run_all_apps(apps, fs, skip, settings_path, AllKind::Save),
        SetManAction::UninstallAll(skip) => {
            if !confirmed {
                return Ok(());
            }
            run_all_apps(apps, fs, skip, settings_path, AllKind::Uninstall)
        },
        _ => Err(SetManError::InvalidOption),
    }
}

/// What publishing the staging tree into the mirror clone makes of a
/// state: for every staging directory, in the scanned order and not
/// named in `skip`, the files its registry entry tracks are copied into
/// the clone's directory of the same name. A directory with no registry
/// entry fails the sync, as does the first failing transfer, leaving
/// what was already copied in place.
pub open spec fn spec_sync_up(
    v: FsView,
    items: Seq<AppView>,
    dirs: Seq<Seq<char>>,
    skip: Seq<Seq<char>>,
    settings: Seq<char>,
    repo: Seq<char>,
) -> (FsView, Result<(), SetManError>)
    decreases dirs.len(),
{
    if dirs.len() == 0 {
        (v, Ok(()))
    } else {
        let d = dirs[0];
        if skip.contains(d) {
            spec_sync_up(v, items, dirs.drop_first(), skip, settings, repo)
        } else if !contains_name(items, d) {
            (v, Err(SetManError::NotFound))
        } else {
            let a = items[first_index_of_name(items, d)];
            let vr = spec_copy_files(v, a.file_names, spec_join(settings, d), spec_join(repo, d));
            if vr.1 is Err {
                (vr.0, transfer_result(vr.1))
            } else {
                spec_sync_up(vr.0, items, dirs.drop_first(), skip, settings, repo)
            }
        }
    }
}

/// What adopting the mirror clone into the staging tree makes of a state:
/// for every clone directory, in the scanned order and not named in
/// `skip`, every file lying there — whatever the registry tracks — is
/// copied into the staging directory of the same name, which is created
/// when absent.
pub open spec fn spec_sync_down(
    v: FsView,
    dirs: Seq<Seq<char>>,
    skip: Seq<Seq<char>>,
    repo: Seq<char>,
    settings: Seq<char>,
) -> (FsView, Result<(), SetManError>)
    decreases dirs.len(),
{
    if dirs.len() == 0 {
        (v, Ok(()))
    } else {
        let d = dirs[0];
        if skip.contains(d) {
            spec_sync_down(v, dirs.drop_first(), skip, repo, settings)
        } else {
            let src = spec_join(repo, d);
            let dst = spec_join(settings, d);
            if !v.dirs.contains(src) {
                (v, Err(SetManError::Transfer(TransferError::SourceDirMissing)))
            } else {
                let v2 = FsView {
                    dirs: v.dirs.insert(dst),
                    files: crate::transfer::mirrored_dir_map(v.files, src, dst),
                };
                spec_sync_down(v2, dirs.drop_first(), skip, repo, settings)
            }
        }
    }
}

/// Synchronizes the staging tree with the mirror clone: publishing copies
/// each scanned staging directory's tracked files into the clone,
/// adopting copies every file of each scanned clone directory into
/// staging. `dir_names` is the caller's scan of the staging tree when
/// publishing, and of the clone when adopting; directories named in
/// `skip` are passed over. Other actions do not belong here.
pub fn sync_settings(
    action: SetManAction,
    fs: &mut FsState,
    apps: &Apps,
    settings_path: &str,
    repo_path: &str,
    dir_names: &Vec<String>,
    skip: &Vec<String>,
) -> (r: Result<(), SetManError>)
    requires
        old(fs).wf(),
    ensures
        final(fs).wf(),
        match action {
            SetManAction::SyncUp => {
                &&& final(fs)@ == spec_sync_up(
                    old(fs)@,
                    apps@,
                    dir_names.deep_view(),
                    skip.deep_view(),
                    settings_path@,
                    repo_path@,
                ).0
                &&& r == spec_sync_up(
                    old(fs)@,
                    apps@,
                    dir_names.deep_view(),
                    skip.deep_view(),
                    settings_path@,
                    repo_path@,
                ).1
            },
            SetManAction::SyncDown => {
                &&& final(fs)@ == spec_sync_down(
                    old(fs)@,
                    dir_names.deep_view(),
                    skip.deep_view(),
                    repo_path@,
                    settings_path@,
                ).0
                &&& r == spec_sync_down(
                    old(fs)@,
                    dir_names.deep_view(),
                    skip.deep_view(),
                    repo_path@,
                    settings_path@,
                ).1
            },
            _ => {
                final(fs)@ == old(fs)@ && r == Err::<(), SetManError>(SetManError::InvalidOption)
            },
        },
{
    match action {
        SetManAction::SyncUp => {
            let ghost dirsv = dir_names.deep_view();
            let ghost skipv = skip.deep_view();
            let ghost v0 = old(fs)@;
            proof {
                assert(dirsv.skip(0) =~= dirsv);
            }
            let mut i: usize = 0;
            while i < dir_names.len()
                invariant
                    fs.wf(),
                    i <= dir_names.len(),
                    v0 == old(fs)@,
                    action is SyncUp,
                    dirsv == dir_names.deep_view(),
                    skipv == skip.deep_view(),
                    spec_sync_up(v0, apps@, dirsv, skipv, settings_path@, repo_path@)
                        == spec_sync_up(
                        fs@,
                        apps@,
                        dirsv.skip(i as int),
                        skipv,
                        settings_path@,
                        repo_path@,
                    ),
                decreases dir_names.len() - i,
            {
                let ghost suffix = dirsv.skip(i as int);
                proof {
                    assert(suffix.len() > 0);
                    assert(suffix[0] == dirsv[i as int]);
                    assert(suffix.drop_first() =~= dirsv.skip(i + 1 as int));
                }
                let dir_name = &dir_names[i];
                let ghost pre = fs@;
                if !name_in_list(skip, dir_name) {
                    let app = match apps.find_app_by_name(dir_name.as_str()) {
                        Ok(a) => a,
                        Err(_) => {
                            proof {
                                assert(spec_sync_up(
                                    pre,
                                    apps@,
                                    suffix,
                                    skipv,
                                    settings_path@,
                                    repo_path@,
                                ) == (pre, Err::<(), SetManError>(SetManError::NotFound)));
                            }
                            return Err(SetManError::NotFound);
                        },
                    };
                    let source = crate::paths::join_path(settings_path, dir_name.as_str());
                    let dest = crate::paths::join_path(repo_path, dir_name.as_str());
                    match copy_files(fs, &app.file_names, source.as_str(), dest.as_str()) {
                        Ok(u) => {},
                        Err(e) => {
                            proof {
                                let a = apps@[first_index_of_name(apps@, suffix[0])];
                                let vr = spec_copy_files(
                                    pre,
                                    a.file_names,
                                    spec_join(settings_path@, suffix[0]),
                                    spec_join(repo_path@, suffix[0]),
                                );
                                assert(spec_sync_up(
                                    pre,
                                    apps@,
                                    suffix,
                                    skipv,
                                    settings_path@,
                                    repo_path@,
                                ) == (vr.0, transfer_result(vr.1)));
                            }
                            return Err(SetManError::Transfer(e));
                        },
                    }
                }
                i = i + 1;
            }
            proof {
                assert(dirsv.skip(dir_names.len() as int) =~= Seq::<Seq<char>>::empty());
            }
            Ok(())
        },
        SetManAction::SyncDown => {
            let ghost dirsv = dir_names.deep_view();
            let ghost skipv = skip.deep_view();
            let ghost v0 = old(fs)@;
            proof {
                assert(dirsv.skip(0) =~= dirsv);
            }
            let mut i: usize = 0;
            while i < dir_names.len()
                invariant
                    fs.wf(),
                    i <= dir_names.len(),
                    v0 == old(fs)@,
                    action is SyncDown,
                    dirsv == dir_names.deep_view(),
                    skipv == skip.deep_view(),
                    spec_sync_down(v0, dirsv, skipv, repo_path@, settings_path@)
                        == spec_sync_down(
                        fs@,
                        dirsv.skip(i as int),
                        skipv,
                        repo_path@,
                        settings_path@,
                    ),
                decreases dir_names.len() - i,
            {
                let ghost suffix = dirsv.skip(i as int);
                proof {
                    assert(suffix.len() > 0);
                    assert(suffix[0] == dirsv[i as int]);
                    assert(suffix.drop_first() =~= dirsv.skip(i + 1 as int));
                }
                let dir_name = &dir_names[i];
                if !name_in_list(skip, dir_name) {
                    let source = crate::paths::join_path(repo_path, dir_name.as_str());
                    let dest = crate::paths::join_path(settings_path, dir_name.as_str());
                    let ghost pre = fs@;
                    let listing = fs.list_files_in(source.as_str());
                    proof {
                        crate::transfer::lemma_copy_listing_mirrors(
                            pre.files,
                            listing.deep_view(),
                            source@,
                            dest@,
                        );
                        crate::transfer::lemma_first_missing(
                            pre.files,
                            listing.deep_view(),
                            source@,
                        );
                    }
                    match copy_files(fs, &listing, source.as_str(), dest.as_str()) {
                        Ok(u) => {},
                        Err(e) => {
                            proof {
                                assert(!pre.dirs.contains(spec_join(repo_path@, suffix[0])));
                                assert(spec_sync_down(
                                    pre,
                                    suffix,
                                    skipv,
                                    repo_path@,
                                    settings_path@,
                                ) == (
                                    pre,
                                    Err::<(), SetManError>(
                                        SetManError::Transfer(TransferError::SourceDirMissing),
                                    ),
                                ));
                            }
                            return Err(SetManError::Transfer(e));
                        },
                    }
                }
                i = i + 1;
            }
            proof {
                assert(dirsv.skip(dir_names.len() as int) =~= Seq::<Seq<char>>::empty());
            }
            Ok(())
        },
        _ => Err(SetManError::InvalidOption),
    }
}

/// A publish never touches a file outside the clone directories it
/// writes into.
proof fn lemma_sync_up_preserves_key(
    v: FsView,
    items: Seq<AppView>,
    dirs: Seq<Seq<char>>,
    skip: Seq<Seq<char>>,
    settings: Seq<char>,
    repo: Seq<char>,
    k: (Seq<char>, Seq<char>),
)
    requires
        forall|j: int| 0 <= j < dirs.len() ==> k.0 != spec_join(repo, #[trigger] dirs[j]),
    ensures
        spec_sync_up(v, items, dirs, skip, settings, repo).0.files.contains_key(k)
            == v.files.contains_key(k),
        v.files.contains_key(k) ==> spec_sync_up(v, items, dirs, skip, settings, repo).0.files[k]
            == v.files[k],
    decreases dirs.len(),
{
    if dirs.len() > 0 {
        let d = dirs[0];
        assert(k.0 != spec_join(repo, d));
        assert forall|j: int| 0 <= j < dirs.drop_first().len() implies k.0 != spec_join(
            repo,
            #[trigger] dirs.drop_first()[j],
        ) by {
            assert(dirs.drop_first()[j] == dirs[j + 1]);
        }
        if skip.contains(d) {
            lemma_sync_up_preserves_key(v, items, dirs.drop_first(), skip, settings, repo, k);
        } else if contains_name(items, d) {
            let a = items[first_index_of_name(items, d)];
            let vr = spec_copy_files(v, a.file_names, spec_join(settings, d), spec_join(repo, d));
            assert(vr.0.files.contains_key(k) == v.files.contains_key(k));
            assert(v.files.contains_key(k) ==> vr.0.files[k] == v.files[k]);
            if vr.1 is Ok {
                lemma_sync_up_preserves_key(
                    vr.0,
                    items,
                    dirs.drop_first(),
                    skip,
                    settings,
                    repo,
                    k,
                );
            }
        }
    }
}

/// A clone directory once created stays through the rest of a publish.
proof fn lemma_sync_up_dirs_grow(
    v: FsView,
    items: Seq<AppView>,
    dirs: Seq<Seq<char>>,
    skip: Seq<Seq<char>>,
    settings: Seq<char>,
    repo: Seq<char>,
    s: Seq<char>,
)
    requires
        v.dirs.contains(s),
    ensures
        spec_sync_up(v, items, dirs, skip, settings, repo).0.dirs.contains(s),
    decreases dirs.len(),
{
    if dirs.len() > 0 {
        let d = dirs[0];
        if skip.contains(d) {
            lemma_sync_up_dirs_grow(v, items, dirs.drop_first(), skip, settings, repo, s);
        } else if contains_name(items, d) {
            let a = items[first_index_of_name(items, d)];
            let vr = spec_copy_files(v, a.file_names, spec_join(settings, d), spec_join(repo, d));
            assert(vr.0.dirs.contains(s));
            if vr.1 is Ok {
                lemma_sync_up_dirs_grow(vr.0, items, dirs.drop_first(), skip, settings, repo, s);
            }
        }
    }
}

/// After a publish succeeds, the clone holds a directory for every
/// scanned staging directory it did not skip.
proof fn lemma_sync_up_dirs(
    v: FsView,
    items: Seq<AppView>,
    dirs: Seq<Seq<char>>,
    skip: Seq<Seq<char>>,
    settings: Seq<char>,
    repo: Seq<char>,
    j: int,
)
    requires
        spec_sync_up(v, items, dirs, skip, settings, repo).1 is Ok,
        0 <= j < dirs.len(),
        !skip.contains(dirs[j]),
    ensures
        spec_sync_up(v, items, dirs, skip, settings, repo).0.dirs.contains(
            spec_join(repo, dirs[j]),
        ),
    decreases dirs.len(),
{
    let d = dirs[0];
    if skip.contains(d) {
        assert(j > 0);
        assert(dirs.drop_first()[j - 1] == dirs[j]);
        lemma_sync_up_dirs(v, items, dirs.drop_first(), skip, settings, repo, j - 1);
    } else {
        let a = items[first_index_of_name(items, d)];
        let vr = spec_copy_files(v, a.file_names, spec_join(settings, d), spec_join(repo, d));
        assert(contains_name(items, d) && vr.1 is Ok);
        assert(vr.0.dirs.contains(spec_join(repo, d)));
        if j == 0 {
            lemma_sync_up_dirs_grow(
                vr.0,
                items,
                dirs.drop_first(),
                skip,
                settings,
                repo,
                spec_join(repo, d),
            );
        } else {
            assert(dirs.drop_first()[j - 1] == dirs[j]);
            lemma_sync_up_dirs(vr.0, items, dirs.drop_first(), skip, settings, repo, j - 1);
        }
    }
}

/// A publish succeeds only when every scanned directory it did not skip
/// is registered.
proof fn lemma_sync_up_ok_contains(
    v: FsView,
    items: Seq<AppView>,
    dirs: Seq<Seq<char>>,
    skip: Seq<Seq<char>>,
    settings: Seq<char>,
    repo: Seq<char>,
    d: Seq<char>,
)
    requires
        spec_sync_up(v, items, dirs, skip, settings, repo).1 is Ok,
        dirs.contains(d),
        !skip.contains(d),
    ensures
        contains_name(items, d),
    decreases dirs.len(),
{
    let idx = choose|idx: int| 0 <= idx < dirs.len() && dirs[idx] == d;
    let d0 = dirs[0];
    if skip.contains(d0) {
        assert(idx > 0);
        assert(dirs.drop_first()[idx - 1] == d);
        assert(dirs.drop_first().contains(d));
        lemma_sync_up_ok_contains(v, items, dirs.drop_first(), skip, settings, repo, d);
    } else {
        assert(contains_name(items, d0));
        if idx > 0 {
            let a = items[first_index_of_name(items, d0)];
            let vr = spec_copy_files(
                v,
                a.file_names,
                spec_join(settings, d0),
                spec_join(repo, d0),
            );
            assert(vr.1 is Ok);
            assert(dirs.drop_first()[idx - 1] == d);
            assert(dirs.drop_first().contains(d));
            lemma_sync_up_ok_contains(vr.0, items, dirs.drop_first(), skip, settings, repo, d);
        }
    }
}

/// After a publish succeeds, each tracked file of each scanned, unskipped
/// directory stands in the clone with the staging copy's exact bytes —
/// which the publish read and never changed.
proof fn lemma_sync_up_tracked(
    v: FsView,
    items: Seq<AppView>,
    dirs: Seq<Seq<char>>,
    skip: Seq<Seq<char>>,
    settings: Seq<char>,
    repo: Seq<char>,
    d: Seq<char>,
    f: Seq<char>,
)
    requires
        settings != repo,
        forall|j: int| 0 <= j < dirs.len() ==> crate::paths::no_slash(#[trigger] dirs[j]),
        spec_sync_up(v, items, dirs, skip, settings, repo).1 is Ok,
        dirs.contains(d),
        !skip.contains(d),
        contains_name(items, d),
        items[first_index_of_name(items, d)].file_names.contains(f),
    ensures
        v.files.contains_key((spec_join(settings, d), f)),
        spec_sync_up(v, items, dirs, skip, settings, repo).0.files.contains_key(
            (spec_join(repo, d), f),
        ),
        spec_sync_up(v, items, dirs, skip, settings, repo).0.files[(spec_join(repo, d), f)]
            == v.files[(spec_join(settings, d), f)],
    decreases dirs.len(),
{
    let d0 = dirs[0];
    assert forall|j: int| 0 <= j < dirs.drop_first().len() implies crate::paths::no_slash(
        #[trigger] dirs.drop_first()[j],
    ) by {
        assert(dirs.drop_first()[j] == dirs[j + 1]);
    }
    if skip.contains(d0) {
        assert(dirs.drop_first().contains(d)) by {
            let idx = choose|idx: int| 0 <= idx < dirs.len() && dirs[idx] == d;
            assert(idx > 0);
            assert(dirs.drop_first()[idx - 1] == d);
        }
        lemma_sync_up_tracked(v, items, dirs.drop_first(), skip, settings, repo, d, f);
    } else {
        assert(contains_name(items, d0));
        let a0 = items[first_index_of_name(items, d0)];
        let src0 = spec_join(settings, d0);
        let dst0 = spec_join(repo, d0);
        let vr = spec_copy_files(v, a0.file_names, src0, dst0);
        assert(vr.1 is Ok);
        let key_s = (spec_join(settings, d), f);
        let key_r = (spec_join(repo, d), f);
        assert(spec_join(settings, d) != dst0) by {
            if spec_join(settings, d) == spec_join(repo, d0) {
                crate::paths::lemma_join_eq(settings, repo, d, d0);
            }
        }
        assert(vr.0.files.contains_key(key_s) == v.files.contains_key(key_s));
        assert(v.files.contains_key(key_s) ==> vr.0.files[key_s] == v.files[key_s]);
        if dirs.drop_first().contains(d) {
            lemma_sync_up_tracked(vr.0, items, dirs.drop_first(), skip, settings, repo, d, f);
        } else {
            assert(d == d0) by {
                let idx = choose|idx: int| 0 <= idx < dirs.len() && dirs[idx] == d;
                if idx > 0 {
                    assert(dirs.drop_first()[idx - 1] == d);
                }
            }
            crate::transfer::lemma_first_missing(v.files, a0.file_names, src0);
            assert(crate::transfer::sources_present(v.files, a0.file_names, src0));
            assert(v.files.contains_key(key_s)) by {
                let jf = choose|jf: int| 0 <= jf < a0.file_names.len() && a0.file_names[jf] == f;
                assert(v.files.contains_key((src0, a0.file_names[jf])));
            }
            assert(vr.0.files.contains_key(key_r));
            assert(vr.0.files[key_r] == v.files[key_s]);
            assert forall|j: int| 0 <= j < dirs.drop_first().len() implies key_r.0 != spec_join(
                repo,
                #[trigger] dirs.drop_first()[j],
            ) by {
                assert(dirs.drop_first()[j] == dirs[j + 1]);
                if key_r.0 == spec_join(repo, dirs.drop_first()[j]) {
                    crate::paths::lemma_join_eq(repo, repo, d, dirs.drop_first()[j]);
                    assert(dirs.drop_first().contains(d));
                }
            }
            lemma_sync_up_preserves_key(
                vr.0,
                items,
                dirs.drop_first(),
                skip,
                settings,
                repo,
                key_r,
            );
        }
    }
}

/// An adopt never touches a file outside the staging directories it
/// writes into.
proof fn lemma_sync_down_preserves_key(
    v: FsView,
    dirs: Seq<Seq<char>>,
    skip: Seq<Seq<char>>,
    repo: Seq<char>,
    settings: Seq<char>,
    k: (Seq<char>, Seq<char>),
)
    requires
        forall|j: int| 0 <= j < dirs.len() ==> k.0 != spec_join(settings, #[trigger] dirs[j]),
    ensures
        spec_sync_down(v, dirs, skip, repo, settings).0.files.contains_key(k)
            == v.files.contains_key(k),
        v.files.contains_key(k) ==> spec_sync_down(v, dirs, skip, repo, settings).0.files[k]
            == v.files[k],
    decreases dirs.len(),
{
    if dirs.len() > 0 {
        let d = dirs[0];
        assert(k.0 != spec_join(settings, d));
        assert forall|j: int| 0 <= j < dirs.drop_first().len() implies k.0 != spec_join(
            settings,
            #[trigger] dirs.drop_first()[j],
        ) by {
            assert(dirs.drop_first()[j] == dirs[j + 1]);
        }
        if skip.contains(d) {
            lemma_sync_down_preserves_key(v, dirs.drop_first(), skip, repo, settings, k);
        } else if v.dirs.contains(spec_join(repo, d)) {
            let v2 = FsView {
                dirs: v.dirs.insert(spec_join(settings, d)),
                files: crate::transfer::mirrored_dir_map(
                    v.files,
                    spec_join(repo, d),
                    spec_join(settings, d),
                ),
            };
            assert(v2.files.contains_key(k) == v.files.contains_key(k));
            assert(v.files.contains_key(k) ==> v2.files[k] == v.files[k]);
            lemma_sync_down_preserves_key(v2, dirs.drop_first(), skip, repo, settings, k);
        }
    }
}

/// An adopt succeeds when the clone holds every scanned directory it does
/// not skip.
proof fn lemma_sync_down_ok(
    v: FsView,
    dirs: Seq<Seq<char>>,
    skip: Seq<Seq<char>>,
    repo: Seq<char>,
    settings: Seq<char>,
)
    requires
        forall|j: int|
            0 <= j < dirs.len() && !skip.contains(#[trigger] dirs[j]) ==> v.dirs.contains(
                spec_join(repo, dirs[j]),
            ),
    ensures
        spec_sync_down(v, dirs, skip, repo, settings).1 is Ok,
    decreases dirs.len(),
{
    if dirs.len() > 0 {
        let d = dirs[0];
        if skip.contains(d) {
            assert forall|j: int|
                0 <= j < dirs.drop_first().len() && !skip.contains(
                    #[trigger] dirs.drop_first()[j],
                ) implies v.dirs.contains(spec_join(repo, dirs.drop_first()[j])) by {
                assert(dirs.drop_first()[j] == dirs[j + 1]);
                assert(!skip.contains(dirs[j + 1]));
            }
            lemma_sync_down_ok(v, dirs.drop_first(), skip, repo, settings);
        } else {
            assert(v.dirs.contains(spec_join(repo, d)));
            let v2 = FsView {
                dirs: v.dirs.insert(spec_join(settings, d)),
                files: crate::transfer::mirrored_dir_map(
                    v.files,
                    spec_join(repo, d),
                    spec_join(settings, d),
                ),
            };
            assert forall|j: int|
                0 <= j < dirs.drop_first().len() && !skip.contains(
                    #[trigger] dirs.drop_first()[j],
                ) implies v2.dirs.contains(spec_join(repo, dirs.drop_first()[j])) by {
                assert(dirs.drop_first()[j] == dirs[j + 1]);
                assert(!skip.contains(dirs[j + 1]));
                assert(v.dirs.contains(spec_join(repo, dirs[j + 1])));
            }
            lemma_sync_down_ok(v2, dirs.drop_first(), skip, repo, settings);
        }
    }
}

/// After an adopt, each file present in a scanned, unskipped clone
/// directory stands in the staging directory of the same name, byte for
/// byte.
proof fn lemma_sync_down_tracked(
    v: FsView,
    dirs: Seq<Seq<char>>,
    skip: Seq<Seq<char>>,
    repo: Seq<char>,
    settings: Seq<char>,
    d: Seq<char>,
    f: Seq<char>,
)
    requires
        settings != repo,
        forall|j: int| 0 <= j < dirs.len() ==> crate::paths::no_slash(#[trigger] dirs[j]),
        forall|j: int|
            0 <= j < dirs.len() && !skip.contains(#[trigger] dirs[j]) ==> v.dirs.contains(
                spec_join(repo, dirs[j]),
            ),
        dirs.contains(d),
        !skip.contains(d),
        v.files.contains_key((spec_join(repo, d), f)),
    ensures
        spec_sync_down(v, dirs, skip, repo, settings).0.files.contains_key(
            (spec_join(settings, d), f),
        ),
        spec_sync_down(v, dirs, skip, repo, settings).0.files[(spec_join(settings, d), f)]
            == v.files[(spec_join(repo, d), f)],
    decreases dirs.len(),
{
    let d0 = dirs[0];
    assert forall|j: int| 0 <= j < dirs.drop_first().len() implies crate::paths::no_slash(
        #[trigger] dirs.drop_first()[j],
    ) by {
        assert(dirs.drop_first()[j] == dirs[j + 1]);
    }
    if skip.contains(d0) {
        assert(dirs.drop_first().contains(d)) by {
            let idx = choose|idx: int| 0 <= idx < dirs.len() && dirs[idx] == d;
            assert(idx > 0);
            assert(dirs.drop_first()[idx - 1] == d);
        }
        assert forall|j: int|
            0 <= j < dirs.drop_first().len() && !skip.contains(
                #[trigger] dirs.drop_first()[j],
            ) implies v.dirs.contains(spec_join(repo, dirs.drop_first()[j])) by {
            assert(dirs.drop_first()[j] == dirs[j + 1]);
            assert(!skip.contains(dirs[j + 1]));
        }
        lemma_sync_down_tracked(v, dirs.drop_first(), skip, repo, settings, d, f);
    } else {
        let src0 = spec_join(repo, d0);
        let dst0 = spec_join(settings, d0);
        assert(v.dirs.contains(src0));
        let v2 = FsView {
            dirs: v.dirs.insert(dst0),
            files: crate::transfer::mirrored_dir_map(v.files, src0, dst0),
        };
        let key_r = (spec_join(repo, d), f);
        let key_s = (spec_join(settings, d), f);
        assert(spec_join(repo, d) != dst0) by {
            if spec_join(repo, d) == spec_join(settings, d0) {
                crate::paths::lemma_join_eq(repo, settings, d, d0);
            }
        }
        assert(v2.files.contains_key(key_r) && v2.files[key_r] == v.files[key_r]);
        assert forall|j: int|
            0 <= j < dirs.drop_first().len() && !skip.contains(
                #[trigger] dirs.drop_first()[j],
            ) implies v2.dirs.contains(spec_join(repo, dirs.drop_first()[j])) by {
            assert(dirs.drop_first()[j] == dirs[j + 1]);
            assert(!skip.contains(dirs[j + 1]));
            assert(v.dirs.contains(spec_join(repo, dirs[j + 1])));
        }
        if dirs.drop_first().contains(d) {
            lemma_sync_down_tracked(v2, dirs.drop_first(), skip, repo, settings, d, f);
        } else {
            assert(d == d0) by {
                let idx = choose|idx: int| 0 <= idx < dirs.len() && dirs[idx] == d;
                if idx > 0 {
                    assert(dirs.drop_first()[idx - 1] == d);
                }
            }
            assert(v2.files.contains_key(key_s));
            assert(v2.files[key_s] == v.files[key_r]);
            assert forall|j: int| 0 <= j < dirs.drop_first().len() implies key_s.0 != spec_join(
                settings,
                #[trigger] dirs.drop_first()[j],
            ) by {
                assert(dirs.drop_first()[j] == dirs[j + 1]);
                if key_s.0 == spec_join(settings, dirs.drop_first()[j]) {
                    crate::paths::lemma_join_eq(settings, settings, d, dirs.drop_first()[j]);
                    assert(dirs.drop_first().contains(d));
                }
            }
            lemma_sync_down_preserves_key(v2, dirs.drop_first(), skip, repo, settings, key_s);
        }
    }
}

/// Law: publishing the staging tree and then adopting the mirror, with no
/// change in between and the same skip list, leaves every tracked staging
/// file byte-identical to its state before the publish. `d` is any
/// scanned directory not skipped, `f` any file its registry entry tracks;
/// directory names carry no path separator, and the staging root and the
/// clone root differ.
pub proof fn lemma_sync_round_trip(
    v0: FsView,
    items: Seq<AppView>,
    dirs: Seq<Seq<char>>,
    skip: Seq<Seq<char>>,
    settings: Seq<char>,
    repo: Seq<char>,
    d: Seq<char>,
    f: Seq<char>,
)
    requires
        settings != repo,
        forall|j: int| 0 <= j < dirs.len() ==> crate::paths::no_slash(#[trigger] dirs[j]),
        spec_sync_up(v0, items, dirs, skip, settings, repo).1 is Ok,
        dirs.contains(d),
        !skip.contains(d),
        items[first_index_of_name(items, d)].file_names.contains(f),
    ensures
        ({
            let v1 = spec_sync_up(v0, items, dirs, skip, settings, repo).0;
            let down = spec_sync_down(v1, dirs, skip, repo, settings);
            &&& down.1 is Ok
            &&& v0.files.contains_key((spec_join(settings, d), f))
            &&& down.0.files.contains_key((spec_join(settings, d), f))
            &&& down.0.files[(spec_join(settings, d), f)] == v0.files[(spec_join(settings, d), f)]
        }),
{
    let v1 = spec_sync_up(v0, items, dirs, skip, settings, repo).0;
    lemma_sync_up_ok_contains(v0, items, dirs, skip, settings, repo, d);
    lemma_sync_up_tracked(v0, items, dirs, skip, settings, repo, d, f);
    assert forall|j: int|
        0 <= j < dirs.len() && !skip.contains(#[trigger] dirs[j]) implies v1.dirs.contains(
        spec_join(repo, dirs[j]),
    ) by {
        lemma_sync_up_dirs(v0, items, dirs, skip, settings, repo, j);
    }
    lemma_sync_down_ok(v1, dirs, skip, repo, settings);
    lemma_sync_down_tracked(v1, dirs, skip, repo, settings, d, f);
}

/// The listing lines of one application: its name; with `verbose` also
/// the configuration path and one line per tracked file name.
pub open spec fn render_app_lines(a: AppView, verbose: bool) -> Seq<Seq<char>> {
    if !verbose {
        seq![a.name]
    } else {
        seq![a.name, "    Config path => "@ + a.config_path] + a.file_names.map_values(
            |f: Seq<char>| "    => "@ + f,
        )
    }
}

/// The listing lines of a list of applications, in its order.
pub open spec fn render_list(items: Seq<AppView>, verbose: bool) -> Seq<Seq<char>>
    decreases items.len(),
{
    if items.len() == 0 {
        Seq::empty()
    } else {
        render_list(items.drop_last(), verbose) + render_app_lines(items.last(), verbose)
    }
}

/// The listing lines of the named applications, in the given order;
/// `NotFound` when one of the names is not registered.
pub open spec fn spec_render_named(
    items: Seq<AppView>,
    names: Seq<Seq<char>>,
    verbose: bool,
) -> Result<Seq<Seq<char>>, SetManError>
    decreases names.len(),
{
    if names.len() == 0 {
        Ok(Seq::empty())
    } else if !contains_name(items, names[0]) {
        Err(SetManError::NotFound)
    } else {
        match spec_render_named(items, names.drop_first(), verbose) {
            Ok(rest) => Ok(
                render_app_lines(items[first_index_of_name(items, names[0])], verbose) + rest,
            ),
            Err(e) => Err(e),
        }
    }
}

/// Lines already produced, put before a listing still to come.
pub open spec fn prepend_lines(
    pre: Seq<Seq<char>>,
    r: Result<Seq<Seq<char>>, SetManError>,
) -> Result<Seq<Seq<char>>, SetManError> {
    match r {
        Ok(rest) => Ok(pre + rest),
        Err(e) => Err(e),
    }
}

/// Appends one application's listing lines.
fn push_app_lines(out: &mut Vec<String>, app: &App, verbose: bool)
    ensures
        final(out).deep_view() == old(out).deep_view() + render_app_lines(app@, verbose),
{
    let ghost base = old(out).deep_view();
    out.push(app.name.clone());
    if !verbose {
        proof {
            assert(out.deep_view() =~= base + render_app_lines(app@, false));
        }
        return ;
    }
    let mut config_line = String::from_str("    Config path => ");
    config_line.append(app.config_path.as_str());
    out.push(config_line);
    let ghost base2 = out.deep_view();
    let ghost g = |f: Seq<char>| "    => "@ + f;
    let mut j: usize = 0;
    while j < app.file_names.len()
        invariant
            j <= app.file_names.len(),
            out.deep_view() == base2 + app@.file_names.take(j as int).map_values(g),
            g == (|f: Seq<char>| "    => "@ + f),
        decreases app.file_names.len() - j,
    {
        let mut line = String::from_str("    => ");
        line.append(app.file_names[j].as_str());
        let ghost out_pre = out.deep_view();
        out.push(line);
        proof {
            assert(app@.file_names.take(j + 1 as int).map_values(g) =~= app@.file_names.take(
                j as int,
            ).map_values(g).push(g(app@.file_names[j as int])));
            assert(out.deep_view() =~= out_pre.push(g(app@.file_names[j as int])));
            assert(out.deep_view() =~= base2 + app@.file_names.take(j + 1 as int).map_values(g));
        }
        j = j + 1;
    }
    proof {
        assert(app@.file_names.take(app.file_names.len() as int) =~= app@.file_names);
        assert(out.deep_view() =~= base + render_app_lines(app@, true));
    }
}

/// The listing lines of a list of applications.
fn render_apps(items: &Vec<App>, verbose: bool) -> (r: Vec<String>)
    ensures
        r.deep_view() == render_list(items.deep_view(), verbose),
{
    let mut out: Vec<String> = Vec::new();
    proof {
        assert(out.deep_view() =~= render_list(items.deep_view().take(0), verbose));
    }
    let mut i: usize = 0;
    while i < items.len()
        invariant
            i <= items.len(),
            out.deep_view() == render_list(items.deep_view().take(i as int), verbose),
        decreases items.len() - i,
    {
        proof {
            assert(items.deep_view().take(i + 1 as int).drop_last() =~= items.deep_view().take(
                i as int,
            ));
            assert(items.deep_view().take(i + 1 as int).last() == items.deep_view()[i as int]);
        }
        push_app_lines(&mut out, &items[i], verbose);
        i = i + 1;
    }
    proof {
        assert(items.deep_view().take(items.len() as int) =~= items.deep_view());
    }
    out
}

/// The listing the manager shows: every registered application, the named
/// ones in their order, or those a regular expression matches; each as
/// its name, with the configuration path and the tracked file names when
/// `verbose`. A name not registered fails with `NotFound`; a pattern that
/// does not compile fails with `InvalidOption`.
pub fn print_app_list(apps: &Apps, option: ListOptions, verbose: bool) -> (r: Result<
    Vec<String>,
    SetManError,
>)
    ensures
        match option {
            ListOptions::Literal(names_opt) => match *names_opt {
                None => r matches Ok(v) && v.deep_view() == render_list(apps@, verbose),
                Some(names) => match spec_render_named(apps@, names.deep_view(), verbose) {
                    Ok(lines) => r matches Ok(v) && v.deep_view() == lines,
                    Err(e) => r == Err::<Vec<String>, SetManError>(e),
                },
            },
            ListOptions::Regex(pattern) => {
                if crate::fileman::regex_valid(pattern@) {
                    r matches Ok(v) && v.deep_view() == render_list(
                        matched_by_pattern(apps@, pattern@),
                        verbose,
                    )
                } else {
                    r == Err::<Vec<String>, SetManError>(SetManError::InvalidOption)
                }
            },
        },
{
    match option {
        ListOptions::Literal(names_opt) => {
            match names_opt {
                None => Ok(render_apps(&apps.items, verbose)),
                Some(names) => {
                    let ghost namesv = names.deep_view();
                    let ghost whole = spec_render_named(apps@, namesv, verbose);
                    let mut out: Vec<String> = Vec::new();
                    proof {
                        assert(namesv.skip(0) =~= namesv);
                        match whole {
                            Ok(rest) => {
                                assert(Seq::<Seq<char>>::empty() + rest =~= rest);
                            },
                            Err(e) => {},
                        }
                    }
                    let mut i: usize = 0;
                    while i < names.len()
                        invariant
                            i <= names.len(),
                            namesv == names.deep_view(),
                            option matches ListOptions::Literal(no) && (*no) matches Some(ns)
                                && ns.deep_view() == namesv,
                            whole == spec_render_named(apps@, namesv, verbose),
                            whole == prepend_lines(
                                out.deep_view(),
                                spec_render_named(apps@, namesv.skip(i as int), verbose),
                            ),
                        decreases names.len() - i,
                    {
                        let ghost suffix = namesv.skip(i as int);
                        proof {
                            assert(suffix.len() > 0);
                            assert(suffix[0] == namesv[i as int]);
                            assert(suffix.drop_first() =~= namesv.skip(i + 1 as int));
                        }
                        let nm: &str = names[i];
                        let app = match apps.find_app_by_name(nm) {
                            Ok(a) => a,
                            Err(_) => {
                                return Err(SetManError::NotFound);
                            },
                        };
                        let ghost out_pre = out.deep_view();
                        push_app_lines(&mut out, &app, verbose);
                        proof {
                            let rec = spec_render_named(
                                apps@,
                                namesv.skip(i + 1 as int),
                                verbose,
                            );
                            match rec {
                                Ok(rest) => {
                                    assert(out_pre + (render_app_lines(app@, verbose) + rest)
                                        =~= out.deep_view() + rest);
                                },
                                Err(e) => {},
                            }
                        }
                        i = i + 1;
                    }
                    proof {
                        assert(namesv.skip(names.len() as int) =~= Seq::<Seq<char>>::empty());
                        match whole {
                            Ok(rest) => {
                                assert(out.deep_view() + Seq::<Seq<char>>::empty()
                                    =~= out.deep_view());
                            },
                            Err(e) => {},
                        }
                    }
                    Ok(out)
                },
            }
        },
        ListOptions::Regex(pattern) => {
            match apps.find_apps_from_regex(pattern) {
                None => Err(SetManError::InvalidOption),
                Some(matched) => Ok(render_apps(&matched, verbose)),
            }
        },
    }
}

} // verus!

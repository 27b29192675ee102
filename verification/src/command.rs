//! Argument parsing and command execution.
//!
//! The surrounding binary hands the raw argument list (without the program
//! name) and, for a whole-project delete, one line read from standard
//! input.  Everything returned is structured: the binary only renders the
//! fixed message templates.

use vstd::prelude::*;
use crate::bytes::{bytes_eq, spec_trim, trim_bytes};
use crate::db_key;
use crate::store::{Lookup, Store};

verus! {

/// The keyword `help` as bytes.
pub open spec fn kw_help() -> Seq<u8> {
    seq![104u8, 101u8, 108u8, 112u8]
}

/// The keyword `get` as bytes.
pub open spec fn kw_get() -> Seq<u8> {
    seq![103u8, 101u8, 116u8]
}

/// The keyword `set` as bytes.
pub open spec fn kw_set() -> Seq<u8> {
    seq![115u8, 101u8, 116u8]
}

/// The keyword `delete` as bytes.
pub open spec fn kw_delete() -> Seq<u8> {
    seq![100u8, 101u8, 108u8, 101u8, 116u8, 101u8]
}

/// The keyword `list` as bytes.
pub open spec fn kw_list() -> Seq<u8> {
    seq![108u8, 105u8, 115u8, 116u8]
}

/// The confirmation answer `y` as bytes.
pub open spec fn kw_yes() -> Seq<u8> {
    seq![121u8]
}

fn kw_help_vec() -> (r: Vec<u8>)
    ensures
        r@ == kw_help(),
{
    let mut v: Vec<u8> = Vec::new();
    v.push(104);
    v.push(101);
    v.push(108);
    v.push(112);
    proof {
        assert(v@ =~= kw_help());
    }
    v
}

fn kw_get_vec() -> (r: Vec<u8>)
    ensures
        r@ == kw_get(),
{
    let mut v: Vec<u8> = Vec::new();
    v.push(103);
    v.push(101);
    v.push(116);
    proof {
        assert(v@ =~= kw_get());
    }
    v
}

fn kw_set_vec() -> (r: Vec<u8>)
    ensures
        r@ == kw_set(),
{
    let mut v: Vec<u8> = Vec::new();
    v.push(115);
    v.push(101);
    v.push(116);
    proof {
        assert(v@ =~= kw_set());
    }
    v
}

fn kw_delete_vec() -> (r: Vec<u8>)
    ensures
        r@ == kw_delete(),
{
    let mut v: Vec<u8> = Vec::new();
    v.push(100);
    v.push(101);
    v.push(108);
    v.push(101);
    v.push(116);
    v.push(101);
    proof {
        assert(v@ =~= kw_delete());
    }
    v
}

fn kw_list_vec() -> (r: Vec<u8>)
    ensures
        r@ == kw_list(),
{
    let mut v: Vec<u8> = Vec::new();
    v.push(108);
    v.push(105);
    v.push(115);
    v.push(116);
    proof {
        assert(v@ =~= kw_list());
    }
    v
}

fn kw_yes_vec() -> (r: Vec<u8>)
    ensures
        r@ == kw_yes(),
{
    let mut v: Vec<u8> = Vec::new();
    v.push(121);
    proof {
        assert(v@ =~= kw_yes());
    }
    v
}

/// One parsed command.
pub enum Command {
    Help,
    Get { project: Vec<u8>, sample: Vec<u8> },
    SetPath { project: Vec<u8>, sample: Vec<u8>, path: Vec<u8> },
    DeleteProject { project: Vec<u8> },
    DeleteSample { project: Vec<u8>, sample: Vec<u8> },
    List,
}

/// Why an argument list is rejected.  Every rejection is followed by the
/// usage text and a non-zero exit.
pub enum ArgError {
    /// No arguments at all.
    NotEnoughArguments,
    /// Five or more arguments, or extra arguments after a known command.
    TooManyArguments,
    /// `get` without both a project and a sample.
    MissingValueForGet,
    /// `set` without a project, sample and path.
    MissingValueForSet,
    /// `delete` without a project.
    MissingValueForDelete,
    /// An unrecognized first argument.
    InvalidCommand,
}

/// Parses the argument list (program name excluded) into one command.
pub fn parse_args(args: &Vec<Vec<u8>>) -> (r: Result<Command, ArgError>)
    ensures
        match r {
            Ok(cmd) => match cmd {
                Command::Help => args@.len() == 1 && args@[0]@ == kw_help(),
                Command::Get { project, sample } => args@.len() == 3 && args@[0]@ == kw_get()
                    && project@ == args@[1]@ && sample@ == args@[2]@,
                Command::SetPath { project, sample, path } => args@.len() == 4 && args@[0]@ == kw_set()
                    && project@ == args@[1]@ && sample@ == args@[2]@ && path@ == args@[3]@,
                Command::DeleteProject { project } => args@.len() == 2 && args@[0]@ == kw_delete()
                    && project@ == args@[1]@,
                Command::DeleteSample { project, sample } => args@.len() == 3 && args@[0]@
                    == kw_delete() && project@ == args@[1]@ && sample@ == args@[2]@,
                Command::List => args@.len() == 1 && args@[0]@ == kw_list(),
            },
            Err(e) => match e {
                ArgError::NotEnoughArguments => args@.len() == 0,
                ArgError::TooManyArguments => args@.len() >= 5 || (1 <= args@.len() <= 4 && ((
                args@[0]@ == kw_help() && args@.len() > 1) || (args@[0]@ == kw_get() && args@.len()
                    == 4) || (args@[0]@ == kw_delete() && args@.len() == 4) || (args@[0]@
                    == kw_list() && args@.len() > 1))),
                ArgError::MissingValueForGet => 1 <= args@.len() < 3 && args@[0]@ == kw_get(),
                ArgError::MissingValueForSet => 1 <= args@.len() < 4 && args@[0]@ == kw_set(),
                ArgError::MissingValueForDelete => args@.len() == 1 && args@[0]@ == kw_delete(),
                ArgError::InvalidCommand => 1 <= args@.len() <= 4 && args@[0]@ != kw_help()
                    && args@[0]@ != kw_get() && args@[0]@ != kw_set() && args@[0]@ != kw_delete()
                    && args@[0]@ != kw_list(),
            },
        },
{
    if args.len() == 0 {
        return Err(ArgError::NotEnoughArguments);
    }
    if args.len() >= 5 {
        return Err(ArgError::TooManyArguments);
    }
    let first = &args[0];
    if bytes_eq(first, &kw_help_vec()) {
        if args.len() == 1 {
            Ok(Command::Help)
        } else {
            Err(ArgError::TooManyArguments)
        }
    } else if bytes_eq(first, &kw_get_vec()) {
        if args.len() < 3 {
            Err(ArgError::MissingValueForGet)
        } else if args.len() == 3 {
            Ok(
                Command::Get {
                    project: crate::store::clone_bytes(&args[1]),
                    sample: crate::store::clone_bytes(&args[2]),
                },
            )
        } else {
            Err(ArgError::TooManyArguments)
        }
    } else if bytes_eq(first, &kw_set_vec()) {
        if args.len() < 4 {
            Err(ArgError::MissingValueForSet)
        } else {
            Ok(
                Command::SetPath {
                    project: crate::store::clone_bytes(&args[1]),
                    sample: crate::store::clone_bytes(&args[2]),
                    path: crate::store::clone_bytes(&args[3]),
                },
            )
        }
    } else if bytes_eq(first, &kw_delete_vec()) {
        if args.len() == 1 {
            Err(ArgError::MissingValueForDelete)
        } else if args.len() == 2 {
            Ok(Command::DeleteProject { project: crate::store::clone_bytes(&args[1]) })
        } else if args.len() == 3 {
            Ok(
                Command::DeleteSample {
                    project: crate::store::clone_bytes(&args[1]),
                    sample: crate::store::clone_bytes(&args[2]),
                },
            )
        } else {
            Err(ArgError::TooManyArguments)
        }
    } else if bytes_eq(first, &kw_list_vec()) {
        if args.len() == 1 {
            Ok(Command::List)
        } else {
            Err(ArgError::TooManyArguments)
        }
    } else {
        Err(ArgError::InvalidCommand)
    }
}

/// One line of ordinary output.  The binary turns each into its fixed
/// message text; the payloads here are the whole variable content.
pub enum OutLine {
    /// The stored path, from a successful `get`.
    Path(Vec<u8>),
    /// `get` on a project that is not stored.
    NoValueForProject,
    /// `get` on a stored project without that sample.
    NoValueForSample,
    /// One `project`, `sample`, `path` listing line.
    Entry(Vec<u8>, Vec<u8>, Vec<u8>),
    /// A delete aimed at a project that is not stored.
    ProjectNotInDb(Vec<u8>),
    /// A whole-project delete declined at the confirmation prompt.
    NotRemoving(Vec<u8>),
}

/// Looks a path up.  Takes the store immutably: a `get` can never change
/// what is persisted.
pub fn run_get(store: &Store, project: &Vec<u8>, sample: &Vec<u8>) -> (out: Vec<OutLine>)
    requires
        store.wf(),
    ensures
        out@.len() == 1,
        match out@[0] {
            OutLine::Path(v) => store@.contains_key(project@) && store@[project@].contains_key(
                sample@,
            ) && v@ == store@[project@][sample@],
            OutLine::NoValueForProject => !store@.contains_key(project@),
            OutLine::NoValueForSample => store@.contains_key(project@)
                && !store@[project@].contains_key(sample@),
            _ => false,
        },
{
    let mut out: Vec<OutLine> = Vec::new();
    match store.lookup(project, sample) {
        Lookup::Found(v) => {
            out.push(OutLine::Path(v));
        },
        Lookup::NoProject => {
            out.push(OutLine::NoValueForProject);
        },
        Lookup::NoSample => {
            out.push(OutLine::NoValueForSample);
        },
    }
    out
}

/// Whether a whole-project delete must first be confirmed: only a stored
/// project prompts.
pub fn wants_confirmation(store: &Store, project: &Vec<u8>) -> (r: bool)
    ensures
        r == store@.contains_key(project@),
{
    store.contains_project(project)
}

/// Removes a whole project, if it is stored and the answer (whitespace
/// trimmed) is exactly `y`.
pub fn run_delete_project(store: &mut Store, project: &Vec<u8>, answer: &Vec<u8>) -> (out: Vec<
    OutLine,
>)
    requires
        old(store).wf(),
    ensures
        final(store).wf(),
        !old(store)@.contains_key(project@) ==> final(store)@ == old(store)@ && out@.len() == 1 && (
        out@[0] matches OutLine::ProjectNotInDb(p) && p@ == project@),
        old(store)@.contains_key(project@) && spec_trim(answer@) == kw_yes() ==> final(store)@
            == old(store)@.remove(project@) && out@.len() == 0,
        old(store)@.contains_key(project@) && spec_trim(answer@) != kw_yes() ==> final(store)@
            == old(store)@ && out@.len() == 1 && (out@[0] matches OutLine::NotRemoving(p) && p@
            == project@),
{
    let mut out: Vec<OutLine> = Vec::new();
    if store.contains_project(project) {
        let trimmed = trim_bytes(answer);
        if bytes_eq(&trimmed, &kw_yes_vec()) {
            let _removed = store.delete_project(project);
        } else {
            out.push(OutLine::NotRemoving(crate::store::clone_bytes(project)));
        }
    } else {
        out.push(OutLine::ProjectNotInDb(crate::store::clone_bytes(project)));
    }
    out
}

/// Removes one sample from a project; a missing sample is no error, a
/// missing project is reported.
pub fn run_delete_sample(store: &mut Store, project: &Vec<u8>, sample: &Vec<u8>) -> (out: Vec<
    OutLine,
>)
    requires
        old(store).wf(),
    ensures
        final(store).wf(),
        old(store)@.contains_key(project@) ==> final(store)@ == old(store)@.insert(
            project@,
            old(store)@[project@].remove(sample@),
        ) && out@.len() == 0,
        !old(store)@.contains_key(project@) ==> final(store)@ == old(store)@ && out@.len() == 1 && (
        out@[0] matches OutLine::ProjectNotInDb(p) && p@ == project@),
{
    let mut out: Vec<OutLine> = Vec::new();
    let found = store.delete_sample(project, sample);
    if !found {
        out.push(OutLine::ProjectNotInDb(crate::store::clone_bytes(project)));
    }
    out
}

/// Lists every stored triple except the reserved `DB` project, one line
/// per stored pair, no duplicates.  Takes the store immutably.
pub fn run_list(store: &Store) -> (out: Vec<OutLine>)
    requires
        store.wf(),
    ensures
        forall|k: int|
            0 <= k < out@.len() ==> ((#[trigger] out@[k]) matches OutLine::Entry(p, s, v) && p@
                != db_key() && store@.contains_key(p@) && store@[p@].contains_key(s@)
                && store@[p@][s@] == v@),
        forall|p: Seq<u8>, s: Seq<u8>|
            store@.contains_key(p) && p != db_key() && #[trigger] store@[p].contains_key(s)
                ==> exists|k: int|
                0 <= k < out@.len() && ((#[trigger] out@[k]) matches OutLine::Entry(p2, s2, v2)
                    && p2@ == p && s2@ == s),
        forall|k1: int, k2: int|
            0 <= k1 < k2 < out@.len()
                ==> ((#[trigger] out@[k1]) matches OutLine::Entry(p1, s1, v1) && (
            #[trigger] out@[k2]) matches OutLine::Entry(p2, s2, v2) && !(p1@ == p2@ && s1@
                == s2@)),
{
    let ts = store.list();
    let ghost tss = ts@;
    let mut out: Vec<OutLine> = Vec::new();
    let mut i: usize = 0;
    while i < ts.len()
        invariant
            tss == ts@,
            i <= tss.len(),
            out@.len() == i,
            forall|k: int|
                0 <= k < i ==> ((#[trigger] out@[k]) matches OutLine::Entry(p, s, v) && p@ == tss[
                k].0@ && s@ == tss[k].1@ && v@ == tss[k].2@),
        decreases tss.len() - i,
    {
        let p = crate::store::clone_bytes(&ts[i].0);
        let s = crate::store::clone_bytes(&ts[i].1);
        let v = crate::store::clone_bytes(&ts[i].2);
        proof {
            assert(tss[i as int].0@ == p@ && tss[i as int].1@ == s@ && tss[i as int].2@ == v@);
        }
        out.push(OutLine::Entry(p, s, v));
        i += 1;
    }
    proof {
        assert(crate::store::listing_sound(tss, store@));
        assert(crate::store::listing_complete(tss, store@));
        assert(crate::store::listing_distinct(tss));
        assert forall|p: Seq<u8>, s: Seq<u8>|
            store@.contains_key(p) && p != db_key() && #[trigger] store@[p].contains_key(s)
        implies exists|k: int|
            0 <= k < out@.len() && ((#[trigger] out@[k]) matches OutLine::Entry(p2, s2, v2) && p2@
                == p && s2@ == s) by {
            let k = choose|k: int|
                0 <= k < tss.len() && (#[trigger] tss[k]).0@ == p && tss[k].1@ == s;
            assert((out@[k] matches OutLine::Entry(p2, s2, v2) && p2@ == p && s2@ == s));
        }
    }
    out
}

} // verus!

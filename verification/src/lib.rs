//! Move a file or directory "out of the way" without destroying data.
//!
//! Given a source name and an extension, the library computes the first
//! destination name that is still free in the source's directory: `foo`
//! becomes `foo.bak`, then `foo.bak.0`, `foo.bak.1`, and so on. The
//! extension may also be a template with a numeric placeholder, such as
//! `bak{}.ufo`.
//!
//! The library works on a model of the filesystem: a path is a sequence of
//! [`template::PathComponent`]s, a directory is the collection of names it
//! currently holds, and the move itself is an update of that collection.
//! Canonicalizing a path, probing the disk and performing the rename are
//! left to the (unverified) caller, which hands the resolved components and
//! the directory's names to this crate and applies the plan it returns.

pub mod digits;
pub mod error;
pub mod extension;
pub mod template;

use vstd::prelude::*;

use crate::error::Error;
use crate::extension::count_placeholders;
use crate::extension::count_placeholders_from;
use crate::extension::default_extension;
use crate::extension::placeholder_at;
use crate::extension::spec_default_extension;
use crate::extension::spec_plain_extension;
use crate::extension::Extension;
use crate::extension::ExtensionModel;
use crate::template::has_name;
use crate::template::is_first_free;
use crate::template::lemma_has_name_push;
use crate::template::remove_name;
use crate::template::spec_candidate;
use crate::template::spec_filename;
use crate::template::spec_resolve_err;
use crate::template::PathComponent;
use crate::template::SpecComponent;
use crate::template::Template;

verus! {

/// What a successful plan promises: the source path resolved, and the
/// returned destination is the directory of `path` joined with the first
/// candidate name (for the extension model `e`) that is free among the
/// names in `occ`.
pub open spec fn planned(
    path: Seq<SpecComponent>,
    e: ExtensionModel,
    occ: Seq<Vec<u8>>,
    dest: Seq<SpecComponent>,
) -> bool {
    &&& spec_resolve_err(path) is None
    &&& exists|n: nat|
        #[trigger] is_first_free(spec_filename(path), e, occ, n) && dest == path.drop_last().push(
            SpecComponent::Normal(spec_candidate(spec_filename(path), e, n)),
        )
}

/// Planning is deterministic: two dry-run queries against the same directory
/// snapshot, with nothing changed in between, name the same destination.
pub proof fn lemma_plan_deterministic(
    path: Seq<SpecComponent>,
    e: ExtensionModel,
    occ: Seq<Vec<u8>>,
    d1: Seq<SpecComponent>,
    d2: Seq<SpecComponent>,
)
    requires
        planned(path, e, occ, d1),
        planned(path, e, occ, d2),
    ensures
        d1 == d2,
{
    let fname = spec_filename(path);
    let n1 = choose|n: nat|
        #[trigger] is_first_free(fname, e, occ, n) && d1 == path.drop_last().push(
            SpecComponent::Normal(spec_candidate(fname, e, n)),
        );
    let n2 = choose|n: nat|
        #[trigger] is_first_free(fname, e, occ, n) && d2 == path.drop_last().push(
            SpecComponent::Normal(spec_candidate(fname, e, n)),
        );
    crate::template::lemma_first_free_unique(fname, e, occ, n1, n2);
}

/// The text `bak` holds no placeholder.
pub proof fn lemma_default_extension_literal()
    ensures
        count_placeholders(spec_default_extension()) == 0,
{
    let s = spec_default_extension();
    assert(s.len() == 3);
    assert(s[0] == 0x62 && s[1] == 0x61 && s[2] == 0x6b);
    assert(!placeholder_at(s, 0) && !placeholder_at(s, 1) && !placeholder_at(s, 2));
    assert(count_placeholders_from(s, 3) == 0);
    assert(count_placeholders_from(s, 2) == 0);
    assert(count_placeholders_from(s, 1) == 0);
    assert(count_placeholders_from(s, 0) == 0);
}

/// Computes, without changing anything, the destination that
/// [`move_aside`] would pick for `path`, using the default extension
/// `bak`, given the names `occupied` currently in the source's directory.
pub fn destination(path: Vec<PathComponent>, occupied: &Vec<Vec<u8>>) -> (r: Result<
    Vec<PathComponent>,
    Error,
>)
    requires
        path.deep_view().len() >= 1,
        occupied@.len() < usize::MAX,
    ensures
        match r {
            Ok(dest) => planned(
                path.deep_view(),
                spec_plain_extension(spec_default_extension()),
                occupied@,
                dest.deep_view(),
            ),
            Err(e) => spec_resolve_err(path.deep_view()) == Some(e),
        },
{
    proof {
        lemma_default_extension_literal();
    }
    destination_with_extension(path, default_extension(), occupied)
}

/// Computes, without changing anything, the destination that
/// [`move_aside_with_extension`] would pick for `path` and the literal
/// extension text `extension`, given the names `occupied` currently in the
/// source's directory.
pub fn destination_with_extension(
    path: Vec<PathComponent>,
    extension: Vec<u8>,
    occupied: &Vec<Vec<u8>>,
) -> (r: Result<Vec<PathComponent>, Error>)
    requires
        path.deep_view().len() >= 1,
        count_placeholders(extension@) <= 1,
        occupied@.len() < usize::MAX,
    ensures
        match r {
            Ok(dest) => planned(
                path.deep_view(),
                spec_plain_extension(extension@),
                occupied@,
                dest.deep_view(),
            ),
            Err(e) => spec_resolve_err(path.deep_view()) == Some(e),
        },
{
    let template = match Template::new(path) {
        Ok(t) => t,
        Err(e) => {
            return Err(e);
        },
    };
    let ext = Extension::new_plain(extension);
    Ok(template.destination(&ext, occupied))
}

/// Moves `path` aside using the default extension `bak`.
///
/// The filesystem is handled as a value: `occupied` holds the names in the
/// source's directory, and the move updates it, removing the source's name
/// and adding the destination's. The caller performs the same steps on
/// disk: probe, then rename.
pub fn move_aside(path: Vec<PathComponent>, occupied: &mut Vec<Vec<u8>>) -> (r: Result<
    Vec<PathComponent>,
    Error,
>)
    requires
        path.deep_view().len() >= 1,
        old(occupied)@.len() < usize::MAX,
        spec_resolve_err(path.deep_view()) is None ==> has_name(
            old(occupied)@,
            spec_filename(path.deep_view()),
        ),
    ensures
        match r {
            Ok(dest) => moved(
                path.deep_view(),
                spec_plain_extension(spec_default_extension()),
                old(occupied)@,
                final(occupied)@,
                dest.deep_view(),
            ),
            Err(e) => spec_resolve_err(path.deep_view()) == Some(e) && final(occupied)@ == old(
                occupied,
            )@,
        },
{
    proof {
        lemma_default_extension_literal();
    }
    move_aside_with_extension(path, default_extension(), occupied)
}

/// What a successful move promises, beyond the plan: the destination name
/// was free beforehand, and afterwards the directory holds exactly the old
/// names, less the source's name, plus the destination's.
pub open spec fn moved(
    path: Seq<SpecComponent>,
    e: ExtensionModel,
    occ_before: Seq<Vec<u8>>,
    occ_after: Seq<Vec<u8>>,
    dest: Seq<SpecComponent>,
) -> bool {
    &&& planned(path, e, occ_before, dest)
    &&& dest.len() >= 1 && dest.last() is Normal
    &&& {
        let destname = dest.last()->Normal_0;
        &&& !has_name(occ_before, destname)
        &&& forall|x: Seq<u8>|
            #[trigger] has_name(occ_after, x) <==> ((has_name(occ_before, x) && x != spec_filename(
                path,
            )) || x == destname)
    }
}

/// Moves `path` aside using the literal extension text `extension`.
///
/// See [`move_aside`]; the source keeps its stem and gets `extension` (and,
/// past the first conflict, a dotted number) as its extension.
pub fn move_aside_with_extension(
    path: Vec<PathComponent>,
    extension: Vec<u8>,
    occupied: &mut Vec<Vec<u8>>,
) -> (r: Result<Vec<PathComponent>, Error>)
    requires
        path.deep_view().len() >= 1,
        count_placeholders(extension@) <= 1,
        old(occupied)@.len() < usize::MAX,
        spec_resolve_err(path.deep_view()) is None ==> has_name(
            old(occupied)@,
            spec_filename(path.deep_view()),
        ),
    ensures
        match r {
            Ok(dest) => moved(
                path.deep_view(),
                spec_plain_extension(extension@),
                old(occupied)@,
                final(occupied)@,
                dest.deep_view(),
            ),
            Err(e) => spec_resolve_err(path.deep_view()) == Some(e) && final(occupied)@ == old(
                occupied,
            )@,
        },
{
    let template = match Template::new(path) {
        Ok(t) => t,
        Err(e) => {
            return Err(e);
        },
    };
    let ext = Extension::new_plain(extension);
    let ghost pre_remove = occupied@;
    let dest = template.destination(&ext, occupied);
    proof {
        let pd = path.deep_view();
        let e = spec_plain_extension(extension@);
        let fname = spec_filename(pd);
        let n = choose|n: nat|
            #[trigger] is_first_free(template.filename@, ext@, pre_remove, n)
                && dest.deep_view() == template.directory.deep_view().push(
                SpecComponent::Normal(spec_candidate(template.filename@, ext@, n)),
            );
        assert(dest.deep_view().last() == SpecComponent::Normal(spec_candidate(fname, e, n)));
        assert(!has_name(pre_remove, dest.deep_view().last()->Normal_0));
        assert(planned(pd, e, pre_remove, dest.deep_view()));
    }
    let destname = crate::template::last_normal_name(&dest);
    remove_name(occupied, &template.filename);
    let ghost post_remove = occupied@;
    occupied.push(destname);
    proof {
        assert(occupied@ == post_remove.push(occupied@.last()));
        assert(occupied@.last()@ == dest.deep_view().last()->Normal_0);
        assert forall|x: Seq<u8>|
            #[trigger] has_name(occupied@, x) <==> ((has_name(pre_remove, x) && x != spec_filename(
                path.deep_view(),
            )) || x == dest.deep_view().last()->Normal_0) by {
            lemma_has_name_push(post_remove, occupied@.last(), x);
        }
    }
    Ok(dest)
}

} // verus!

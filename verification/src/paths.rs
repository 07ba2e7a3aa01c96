//! Paths as the renderers compare them: canonical, absolute, `/`-separated.
use vstd::prelude::*;

use crate::book::RenderError;
use crate::text::{push_all, push_str, starts_with, starts_with_exec};

verus! {

/// `path` lies at or below `root`, component by component (`Path::starts_with`
/// on canonical paths, which have no `.`, `..`, repeated or trailing `/`).
pub open spec fn path_within(path: Seq<char>, root: Seq<char>) -> bool {
    ||| root.len() == 0
    ||| path == root
    ||| (starts_with(path, root) && (root.last() == '/' || path[root.len() as int] == '/'))
}

/// Why a path outside the root is refused.
pub open spec fn outside_error(root: Seq<char>, path: Seq<char>, description: Seq<char>) -> Seq<char> {
    description + " is outside project root "@ + root + ": "@ + path
}

pub fn is_within(path: &[char], root: &[char]) -> (b: bool)
    ensures
        b == path_within(path@, root@),
{
    if root.len() == 0 {
        return true;
    }
    if !starts_with_exec(path, root) {
        proof {
            if path@ == root@ {
                assert(path@.subrange(0, root@.len() as int) =~= root@);
            }
        }
        return false;
    }
    if path.len() == root.len() {
        proof {
            assert(path@ =~= root@);
        }
        return true;
    }
    root[root.len() - 1] == '/' || path[root.len()] == '/'
}

/// Refuses a path outside `root`.
pub fn ensure_inside(root: &[char], path: &[char], description: &str) -> (r: Result<(), RenderError>)
    ensures
        r is Ok <==> path_within(path@, root@),
        r matches Err(e) ==> e@ == outside_error(root@, path@, description@),
{
    if is_within(path, root) {
        return Ok(());
    }
    let mut msg: Vec<char> = Vec::new();
    push_str(&mut msg, description);
    push_str(&mut msg, " is outside project root ");
    push_all(&mut msg, root);
    push_str(&mut msg, ": ");
    push_all(&mut msg, path);
    proof {
        assert(msg@ =~= outside_error(root@, path@, description@));
    }
    Err(RenderError::from_chars(msg.as_slice()))
}

/// Whether an output path names a `..` component, which only the file
/// system could resolve.
pub open spec fn has_parent_component(path: Seq<char>) -> bool {
    crate::gitmd::segments(path).contains(".."@)
}

/// The requested output directory is usable before anything is created:
/// no `..` component, and a final component to name the output.
pub open spec fn output_path_check(path: Seq<char>) -> Result<(), Seq<char>> {
    if has_parent_component(path) {
        Err("renderer output directory contains an unresolved non-normal component: "@ + path)
    } else if crate::gitmd::segments(path).len() == 0 {
        Err("renderer output directory has no final component"@)
    } else {
        Ok(())
    }
}

/// Checks a requested output directory (see [`output_path_check`]).
pub fn check_output_path(path: &[char]) -> (r: Result<(), RenderError>)
    ensures
        match r {
            Ok(()) => output_path_check(path@) is Ok,
            Err(e) => output_path_check(path@) == Err::<(), Seq<char>>(e@),
        },
{
    let segs = crate::gitmd::segments_of(path);
    let dd = crate::text::chars_of("..");
    let ghost sv = crate::gitmd::seg_view(segs@);
    let mut k: usize = 0;
    let mut found = false;
    while k < segs.len()
        invariant
            k <= segs@.len(),
            sv == crate::gitmd::seg_view(segs@),
            dd@ == ".."@,
            found == exists|j: int| 0 <= j < k && sv[j] == ".."@,
        decreases segs@.len() - k,
    {
        if crate::text::eq_chars(segs[k].as_slice(), dd.as_slice()) {
            proof {
                assert(sv[k as int] == ".."@);
            }
            found = true;
        }
        k = k + 1;
    }
    if found {
        let mut msg: Vec<char> = Vec::new();
        push_str(&mut msg, "renderer output directory contains an unresolved non-normal component: ");
        push_all(&mut msg, path);
        return Err(RenderError::from_chars(msg.as_slice()));
    }
    if segs.len() == 0 {
        return Err(RenderError::new("renderer output directory has no final component"));
    }
    Ok(())
}

/// A path the output must neither be, lie in, nor contain, with its name.
pub struct Protected {
    pub path: String,
    pub label: String,
}

pub open spec fn protected_view(v: Seq<Protected>) -> Seq<(Seq<char>, Seq<char>)> {
    Seq::new(v.len(), |k: int| (v[k].path@, v[k].label@))
}

/// The output and a protected path overlap: one lies at or below the other.
pub open spec fn overlaps(a: Seq<char>, b: Seq<char>) -> bool {
    path_within(a, b) || path_within(b, a)
}

/// Refuses an output that overlaps the first protected path it meets.
pub open spec fn protected_check(output: Seq<char>, ps: Seq<(Seq<char>, Seq<char>)>) -> Result<
    (),
    Seq<char>,
>
    decreases ps.len(),
{
    if ps.len() == 0 {
        Ok(())
    } else if overlaps(output, ps[0].0) {
        Err("renderer output directory overlaps protected input "@ + ps[0].1 + ": "@ + ps[0].0)
    } else {
        protected_check(output, ps.drop_first())
    }
}

/// Checks the resolved output directory against the protected inputs.
pub fn check_protected(output: &[char], protected: &Vec<Protected>) -> (r: Result<(), RenderError>)
    ensures
        match r {
            Ok(()) => protected_check(output@, protected_view(protected@)) is Ok,
            Err(e) => protected_check(output@, protected_view(protected@)) == Err::<(), Seq<char>>(
                e@,
            ),
        },
{
    let ghost pv = protected_view(protected@);
    let mut k: usize = 0;
    proof {
        assert(pv.skip(0) =~= pv);
    }
    while k < protected.len()
        invariant
            k <= protected@.len(),
            pv == protected_view(protected@),
            protected_check(output@, pv) == protected_check(output@, pv.skip(k as int)),
        decreases protected@.len() - k,
    {
        proof {
            assert(pv.skip(k as int)[0] == pv[k as int]);
            assert(pv.skip(k as int).drop_first() =~= pv.skip(k + 1));
        }
        let p = crate::text::chars_of(protected[k].path.as_str());
        if is_within(output, p.as_slice()) || is_within(p.as_slice(), output) {
            let mut msg: Vec<char> = Vec::new();
            push_str(&mut msg, "renderer output directory overlaps protected input ");
            push_str(&mut msg, protected[k].label.as_str());
            push_str(&mut msg, ": ");
            push_all(&mut msg, p.as_slice());
            return Err(RenderError::from_chars(msg.as_slice()));
        }
        k = k + 1;
    }
    proof {
        assert(pv.skip(pv.len() as int).len() == 0);
    }
    Ok(())
}

/// An output directory that passes the check overlaps none of the
/// protected inputs: it is not one of them, not inside one, and holds none.
pub proof fn law_accepted_output_overlaps_nothing(output: Seq<char>, ps: Seq<(Seq<char>, Seq<char>)>)
    requires
        protected_check(output, ps) is Ok,
    ensures
        forall|k: int| 0 <= k < ps.len() ==> !overlaps(output, #[trigger] ps[k].0),
    decreases ps.len(),
{
    if ps.len() > 0 {
        law_accepted_output_overlaps_nothing(output, ps.drop_first());
        assert forall|k: int| 0 <= k < ps.len() implies !overlaps(output, #[trigger] ps[k].0) by {
            if k > 0 {
                assert(ps[k] == ps.drop_first()[k - 1]);
            }
        }
    }
}

} // verus!

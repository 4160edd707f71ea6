//! The install backend: how it is invoked and how its progress lines read.

use vstd::prelude::*;

use crate::text::{
    is_white_space,
    chars_of, first_white_space, find_white_space, lemma_first_white_space_bounds, skip_white_space,
    slice_chars, starts_with, string_of, trim, trim_chars, trim_start,
};
use crate::wizard::{xrandr_name, Rotation};

verus! {

/// The program that partitions the disk and copies the system onto it.
pub const BACKEND: &'static str = "/usr/local/sbin/arcader-install-backend";

/// The marker that begins a progress line.
pub open spec fn progress_marker() -> Seq<char> {
    seq!['@', '@', 'P', ' ']
}

/// The parts of a progress line `@@P <fraction> <phase>`: after leading white
/// space and the marker, and more white space, the fraction runs up to the
/// next white-space character and the phase is the rest, trimmed. A line
/// without the marker, or with nothing after the fraction, is no progress line.
pub open spec fn progress_parts(line: Seq<char>) -> Option<(Seq<char>, Seq<char>)> {
    let t = trim_start(line);
    if starts_with(t, progress_marker()) {
        let rest = trim_start(t.skip(4));
        let i = first_white_space(rest);
        if i < rest.len() {
            Some((rest.take(i), trim(rest.skip(i + 1))))
        } else {
            None
        }
    } else {
        None
    }
}

/// The fraction text and the phase of a progress line (see `progress_parts`).
pub fn split_progress_line(line: &str) -> (r: Option<(String, String)>)
    ensures
        r is Some <==> progress_parts(line@) is Some,
        r matches Some(p) ==> (p.0@, p.1@) == progress_parts(line@)->0,
{
    let v = chars_of(line);
    assert(v@.skip(0) == v@);
    let a = skip_white_space(v.as_slice(), 0);
    let ghost t = v@.skip(a as int);
    if !(4 <= v.len() - a && v[a] == '@' && v[a + 1] == '@' && v[a + 2] == 'P' && v[a + 3] == ' ') {
        proof {
            if starts_with(t, progress_marker()) {
                assert(t.take(4)[0] == v@[a as int]);
                assert(t.take(4)[1] == v@[a + 1]);
                assert(t.take(4)[2] == v@[a + 2]);
                assert(t.take(4)[3] == v@[a + 3]);
            }
        }
        return None;
    }
    assert(t.take(4) =~= progress_marker());
    let b = skip_white_space(v.as_slice(), a + 4);
    assert(v@.skip(a + 4) == t.skip(4));
    let ghost rest = v@.skip(b as int);
    let i = find_white_space(v.as_slice(), b);
    proof {
        lemma_first_white_space_bounds(rest);
    }
    if i >= v.len() {
        return None;
    }
    let frac = slice_chars(v.as_slice(), b, i);
    let tail = slice_chars(v.as_slice(), i + 1, v.len());
    let phase = trim_chars(tail.as_slice());
    assert(frac@ == rest.take(i - b));
    assert(tail@ == rest.skip(i - b + 1));
    Some((string_of(frac.as_slice()), string_of(phase.as_slice())))
}

/// The arguments of `sudo` that run the backend on `disk`: `-n`, the
/// backend, `--dry-run` when asked, `--rotate` with the rotation's `xrandr`
/// name, and the disk.
pub open spec fn backend_args_spec(disk: Seq<char>, dry_run: bool, rotation: Rotation) -> Seq<
    Seq<char>,
> {
    let head = seq!["-n"@, BACKEND@];
    let mid = if dry_run {
        seq!["--dry-run"@]
    } else {
        seq![]
    };
    head + mid + seq!["--rotate"@, xrandr_name(rotation), disk]
}

/// The arguments of `sudo` that run the backend (see `backend_args_spec`).
pub fn backend_args(disk: &str, dry_run: bool, rotation: Rotation) -> (r: Vec<String>)
    ensures
        r@.len() == backend_args_spec(disk@, dry_run, rotation).len(),
        forall|k: int| 0 <= k < r@.len() ==> #[trigger] r@[k]@ == backend_args_spec(disk@, dry_run, rotation)[k],
{
    let mut r: Vec<String> = Vec::new();
    r.push(String::from_str("-n"));
    r.push(String::from_str(BACKEND));
    if dry_run {
        r.push(String::from_str("--dry-run"));
    }
    r.push(String::from_str("--rotate"));
    r.push(String::from_str(rotation.xrandr()));
    r.push(String::from_str(disk));
    let ghost spec = backend_args_spec(disk@, dry_run, rotation);
    if dry_run {
        assert(spec =~= seq!["-n"@, BACKEND@, "--dry-run"@, "--rotate"@, xrandr_name(rotation), disk@]);
    } else {
        assert(spec =~= seq!["-n"@, BACKEND@, "--rotate"@, xrandr_name(rotation), disk@]);
    }
    r
}


/// The backend's arguments for any disk and rotation: `-n` and the backend
/// first, the disk last, `--dry-run` among the others exactly when a dry run
/// is asked, and `--rotate` followed by `normal` or `inverted` just before the
/// disk. Two rotations give the same arguments but for that one word.
pub proof fn lemma_backend_args(disk: Seq<char>, dry_run: bool, r1: Rotation, r2: Rotation)
    ensures
        ({
            let a = backend_args_spec(disk, dry_run, r1);
            let b = backend_args_spec(disk, dry_run, r2);
            &&& a.len() == if dry_run { 6int } else { 5int }
            &&& a[0] == "-n"@
            &&& a[1] == "/usr/local/sbin/arcader-install-backend"@
            &&& a.last() == disk
            &&& a.drop_last().contains("--dry-run"@) == dry_run
            &&& a[a.len() - 3] == "--rotate"@
            &&& a[a.len() - 2] == if r1 == Rotation::Normal { "normal"@ } else { "inverted"@ }
            &&& b.len() == a.len()
            &&& forall|k: int| 0 <= k < a.len() && k != a.len() - 2 ==> #[trigger] a[k] == b[k]
        }),
{
    reveal_strlit("-n");
    reveal_strlit("/usr/local/sbin/arcader-install-backend");
    reveal_strlit("--dry-run");
    reveal_strlit("--rotate");
    reveal_strlit("normal");
    reveal_strlit("inverted");
    let a = backend_args_spec(disk, dry_run, r1);
    let b = backend_args_spec(disk, dry_run, r2);
    let x1 = xrandr_name(r1);
    let x2 = xrandr_name(r2);
    if dry_run {
        assert(a =~= seq!["-n"@, BACKEND@, "--dry-run"@, "--rotate"@, x1, disk]);
        assert(b =~= seq!["-n"@, BACKEND@, "--dry-run"@, "--rotate"@, x2, disk]);
        assert(a.drop_last()[2] == "--dry-run"@);
    } else {
        assert(a =~= seq!["-n"@, BACKEND@, "--rotate"@, x1, disk]);
        assert(b =~= seq!["-n"@, BACKEND@, "--rotate"@, x2, disk]);
        assert forall|k: int| 0 <= k < a.drop_last().len() implies a.drop_last()[k].len() != 9 by {
            assert(a.drop_last()[k] == a[k]);
        }
        assert(!a.drop_last().contains("--dry-run"@));
    }
}

/// A progress line written from a fraction (text without white space) and a
/// phase reads back as that fraction and the phase trimmed.
pub proof fn lemma_progress_line_roundtrip(frac: Seq<char>, phase: Seq<char>)
    requires
        frac.len() > 0,
        forall|i: int| 0 <= i < frac.len() ==> !is_white_space(#[trigger] frac[i]),
    ensures
        progress_parts(progress_marker() + frac + seq![' '] + phase) == Some((frac, trim(phase))),
{
    let line = progress_marker() + frac + seq![' '] + phase;
    assert(line[0] == '@');
    assert(trim_start(line) == line);
    assert(line.take(4) =~= progress_marker());
    let rest = line.skip(4);
    assert(rest =~= frac + seq![' '] + phase);
    assert(rest[0] == frac[0]);
    assert(trim_start(rest) == rest);
    assert forall|j: int| 0 <= j < frac.len() implies !is_white_space(#[trigger] rest[j]) by {
        assert(rest[j] == frac[j]);
    }
    assert(rest[frac.len() as int] == ' ');
    lemma_first_white_space_is(rest, frac.len() as int);
    assert(rest.take(frac.len() as int) =~= frac);
    assert(rest.skip(frac.len() as int + 1) =~= phase);
}

/// `first_white_space` is the first position holding white space.
pub proof fn lemma_first_white_space_is(s: Seq<char>, k: int)
    requires
        0 <= k <= s.len(),
        forall|j: int| 0 <= j < k ==> !is_white_space(#[trigger] s[j]),
        k == s.len() || is_white_space(s[k]),
    ensures
        first_white_space(s) == k,
    decreases k,
{
    if k > 0 {
        assert forall|j: int| 0 <= j < k - 1 implies !is_white_space(#[trigger] s.drop_first()[j]) by {
            assert(s.drop_first()[j] == s[j + 1]);
        }
        lemma_first_white_space_is(s.drop_first(), k - 1);
    }
}

} // verus!

//! Asking git which of our candidate paths it actually ignores.
//!
//! This is the safety net that gives the tool its meaning: only paths git
//! reports as ignored are ever deleted. `git check-ignore` without
//! `--no-index` deliberately does not report tracked paths, so a committed
//! `dist/` or `vendor/` survives even though the configuration lists it.

use vstd::prelude::*;
use vstd::utf8::*;

use crate::path::{lemma_path_facts_push, path_facts, FsPath, PathFact};
use crate::project::GitStatus;
use crate::text::{
    chars_of, from_utf8_lossy, holds_text, lemma_split_concat, lemma_split_single,
    lemma_texts_push, split, split_chars, string_of_range, texts, utf8_lossy,
};

verus! {

/// The name by which git is asked about `path`.
pub open spec fn git_name(root: PathFact, path: PathFact) -> Seq<char> {
    path.relative_to(root).shown()
}

/// The names by which git is asked about `paths`.
pub open spec fn git_names(root: PathFact, paths: Seq<PathFact>) -> Seq<Seq<char>> {
    paths.map_values(|p: PathFact| git_name(root, p))
}

/// What git's answer means: the names it ignores, or why there is no answer.
pub open spec fn verdict_view(verdict: Result<Vec<String>, GitStatus>) -> Result<
    Seq<Seq<char>>,
    GitStatus,
> {
    match verdict {
        Ok(names) => Ok(texts(names@)),
        Err(status) => Err(status),
    }
}

/// The names of `candidates` relative to `root`, as git is asked about them.
pub fn relative_names(root: &FsPath, candidates: &Vec<FsPath>) -> (r: Vec<String>)
    ensures
        texts(r@) == git_names(root.fact(), path_facts(candidates@)),
{
    let ghost all = git_names(root.fact(), path_facts(candidates@));
    let mut out: Vec<String> = Vec::new();
    let mut i: usize = 0;
    while i < candidates.len()
        invariant
            0 <= i <= candidates.len(),
            all == git_names(root.fact(), path_facts(candidates@)),
            texts(out@) =~= all.take(i as int),
        decreases candidates.len() - i,
    {
        let name = candidates[i].relative_to(root).to_text();
        proof {
            lemma_texts_push(out@, name);
        }
        out.push(name);
        i = i + 1;
    }
    assert(all.take(all.len() as int) =~= all);
    out
}

/// Split `candidates` into the paths git ignores and the rest, given git's
/// answer to the [`relative_names`].
///
/// Gives [`GitStatus::NoRepo`] / [`GitStatus::Unavailable`] together with all
/// candidates untouched when the question could not be answered.
pub fn partition_ignored(
    root: &FsPath,
    candidates: Vec<FsPath>,
    verdict: Result<Vec<String>, GitStatus>,
) -> (r: (Vec<FsPath>, Vec<FsPath>, GitStatus))
    ensures
        (path_facts(r.0@), path_facts(r.1@), r.2) == partition(
            root.fact(),
            path_facts(candidates@),
            verdict_view(verdict),
        ),
{
    let ghost all = path_facts(candidates@);
    if candidates.len() == 0 {
        let none: (Vec<FsPath>, Vec<FsPath>, GitStatus) = (
            Vec::new(),
            Vec::new(),
            GitStatus::Ignored,
        );
        assert(path_facts(none.0@) =~= seq![] && path_facts(none.1@) =~= seq![]);
        return none;
    }
    match verdict {
        Err(status) => {
            let dropped: Vec<FsPath> = Vec::new();
            assert(path_facts(dropped@) =~= seq![]);
            (candidates, dropped, status)
        },
        Ok(ignored) => {
            let ghost names = texts(ignored@);
            let ghost keeps = |p: PathFact| names.contains(git_name(root.fact(), p));
            let ghost drops = |p: PathFact| !names.contains(git_name(root.fact(), p));
            let mut keep: Vec<FsPath> = Vec::new();
            let mut dropped: Vec<FsPath> = Vec::new();
            let mut i: usize = 0;
            proof {
                reveal(Seq::filter);
                assert(path_facts(keep@) =~= all.take(0).filter(keeps));
                assert(path_facts(dropped@) =~= all.take(0).filter(drops));
            }
            while i < candidates.len()
                invariant
                    0 <= i <= candidates.len(),
                    all == path_facts(candidates@),
                    names == texts(ignored@),
                    keeps == (|p: PathFact| names.contains(git_name(root.fact(), p))),
                    drops == (|p: PathFact| !names.contains(git_name(root.fact(), p))),
                    path_facts(keep@) == all.take(i as int).filter(keeps),
                    path_facts(dropped@) == all.take(i as int).filter(drops),
                decreases candidates.len() - i,
            {
                let path = candidates[i].clone();
                let name = path.relative_to(root).to_text();
                proof {
                    reveal(Seq::filter);
                    assert(all.take(i + 1).drop_last() =~= all.take(i as int));
                    assert(all.take(i + 1).last() == path.fact());
                    lemma_path_facts_push(keep@, path);
                    lemma_path_facts_push(dropped@, path);
                }
                if holds_text(&ignored, name.as_str()) {
                    keep.push(path);
                } else {
                    dropped.push(path);
                }
                i = i + 1;
            }
            assert(all.take(all.len() as int) =~= all);
            (keep, dropped, GitStatus::Ignored)
        },
    }
}

/// The paths to keep, the paths to drop, and what git had to say.
pub open spec fn partition(
    root: PathFact,
    candidates: Seq<PathFact>,
    verdict: Result<Seq<Seq<char>>, GitStatus>,
) -> (Seq<PathFact>, Seq<PathFact>, GitStatus) {
    if candidates.len() == 0 {
        (seq![], seq![], GitStatus::Ignored)
    } else {
        match verdict {
            Ok(ignored) => (
                candidates.filter(|p: PathFact| ignored.contains(git_name(root, p))),
                candidates.filter(|p: PathFact| !ignored.contains(git_name(root, p))),
                GitStatus::Ignored,
            ),
            Err(status) => (candidates, seq![], status),
        }
    }
}

/// No candidate is lost and none is made up: each one is either kept or dropped,
/// as often as it was there. Where git gave an answer, whatever is kept was
/// reported as ignored, and whatever is dropped was not.
pub proof fn law_partition(
    root: PathFact,
    candidates: Seq<PathFact>,
    verdict: Result<Seq<Seq<char>>, GitStatus>,
)
    ensures
        ({
            let (keep, dropped, status) = partition(root, candidates, verdict);
            &&& keep.to_multiset().add(dropped.to_multiset()) == candidates.to_multiset()
            &&& verdict matches Ok(ignored) ==> {
                &&& forall|p: PathFact| #[trigger]
                    keep.contains(p) ==> ignored.contains(git_name(root, p))
                &&& forall|p: PathFact| #[trigger]
                    dropped.contains(p) ==> !ignored.contains(git_name(root, p))
            }
            &&& verdict is Err ==> keep == candidates && dropped.len() == 0
        }),
{
    broadcast use vstd::seq_lib::group_to_multiset_ensures;

    let (keep, dropped, status) = partition(root, candidates, verdict);
    if candidates.len() == 0 {
        assert(candidates =~= seq![]);
        assert(keep.to_multiset().add(dropped.to_multiset()) =~= candidates.to_multiset());
    } else {
        match verdict {
            Ok(ignored) => {
                let keeps = |p: PathFact| ignored.contains(git_name(root, p));
                let drops = |p: PathFact| !ignored.contains(git_name(root, p));
                lemma_filter_sides(candidates, keeps, drops);
                assert forall|p: PathFact| #[trigger] keep.contains(p) implies ignored.contains(
                    git_name(root, p),
                ) by {
                    lemma_filter_holds(candidates, keeps, p);
                }
                assert forall|p: PathFact| #[trigger]
                    dropped.contains(p) implies !ignored.contains(git_name(root, p)) by {
                    lemma_filter_holds(candidates, drops, p);
                }
            },
            Err(_) => {
                assert(keep.to_multiset().add(dropped.to_multiset()) =~= candidates.to_multiset());
            },
        }
    }
}

/// What a filter lets through satisfies it and was there before.
pub proof fn lemma_filter_holds<A>(s: Seq<A>, pred: spec_fn(A) -> bool, x: A)
    requires
        s.filter(pred).contains(x),
    ensures
        pred(x),
        s.contains(x),
    decreases s.len(),
{
    reveal(Seq::filter);
    if s.len() > 0 {
        let init = s.drop_last();
        let kept = init.filter(pred);
        let k = choose|k: int| 0 <= k < s.filter(pred).len() && s.filter(pred)[k] == x;
        if k < kept.len() {
            assert(kept[k] == x);
            assert(kept.contains(x));
            lemma_filter_holds(init, pred, x);
            let j = choose|j: int| 0 <= j < init.len() && init[j] == x;
            assert(s[j] == x);
        } else {
            assert(x == s.last());
            assert(s[s.len() - 1] == x);
        }
    }
}

proof fn lemma_filter_sides<A>(s: Seq<A>, left: spec_fn(A) -> bool, right: spec_fn(A) -> bool)
    requires
        forall|x: A| #[trigger] left(x) == !right(x),
    ensures
        s.filter(left).to_multiset().add(s.filter(right).to_multiset()) == s.to_multiset(),
    decreases s.len(),
{
    broadcast use vstd::seq_lib::group_to_multiset_ensures;

    reveal(Seq::filter);
    if s.len() == 0 {
        assert(s.filter(left) =~= s && s.filter(right) =~= s);
        assert(s.to_multiset().add(s.to_multiset()) =~= s.to_multiset());
    } else {
        let init = s.drop_last();
        lemma_filter_sides(init, left, right);
        assert(s =~= init.push(s.last()));
        let (a, b) = (init.filter(left), init.filter(right));
        assert(left(s.last()) == !right(s.last()));
        if left(s.last()) {
            assert(s.filter(left) =~= a.push(s.last()));
            assert(s.filter(right) =~= b);
        } else {
            assert(s.filter(left) =~= a);
            assert(s.filter(right) =~= b.push(s.last()));
        }
        assert(s.filter(left).to_multiset().add(s.filter(right).to_multiset())
            =~= a.to_multiset().add(b.to_multiset()).insert(s.last()));
    }
}

/// What is written to git: each name, closed by a zero byte.
pub open spec fn framed(names: Seq<Seq<char>>) -> Seq<u8>
    decreases names.len(),
{
    if names.len() == 0 {
        seq![]
    } else {
        (framed(names.drop_last()) + encode_utf8(names.last())).push(0u8)
    }
}

/// What is written to the standard input of `git check-ignore --stdin -z`.
pub fn check_ignore_input(names: &Vec<String>) -> (r: Vec<u8>)
    ensures
        r@ == framed(texts(names@)),
{
    let ghost all = texts(names@);
    let mut out: Vec<u8> = Vec::new();
    let mut i: usize = 0;
    assert(all.take(0) =~= seq![]);
    while i < names.len()
        invariant
            0 <= i <= names.len(),
            all == texts(names@),
            out@ == framed(all.take(i as int)),
        decreases names.len() - i,
    {
        let ghost before = out@;
        let bytes = names[i].as_str().as_bytes();
        assert(all.take(i + 1).drop_last() =~= all.take(i as int));
        assert(all.take(i + 1).last() == names@[i as int]@);
        let mut k: usize = 0;
        assert(before + bytes@.take(0) =~= before);
        while k < bytes.len()
            invariant
                0 <= k <= bytes.len(),
                out@ =~= before + bytes@.take(k as int),
            decreases bytes.len() - k,
        {
            out.push(bytes[k]);
            k = k + 1;
        }
        assert(bytes@.take(bytes@.len() as int) =~= bytes@);
        out.push(0);
        i = i + 1;
    }
    assert(all.take(all.len() as int) =~= all);
    out
}

/// `name` without the slashes at its end.
pub open spec fn without_slashes(name: Seq<char>) -> Seq<char>
    decreases name.len(),
{
    if name.len() > 0 && name.last() == '/' {
        without_slashes(name.drop_last())
    } else {
        name
    }
}

/// git echoes the path as given; strip a trailing slash so comparisons match.
fn normalise(path: &str) -> (r: String)
    ensures
        r@ == without_slashes(path@),
{
    let chars = chars_of(path);
    let mut end: usize = chars.len();
    assert(chars@.take(chars@.len() as int) =~= chars@);
    while end > 0 && chars[end - 1] == '/'
        invariant
            0 <= end <= chars.len(),
            without_slashes(chars@) == without_slashes(chars@.take(end as int)),
        decreases end,
    {
        assert(chars@.take(end as int).drop_last() =~= chars@.take(end - 1));
        end = end - 1;
    }
    assert(chars@.subrange(0, end as int) =~= chars@.take(end as int));
    string_of_range(&chars, 0, end)
}

/// The names among the zero-terminated pieces of git's output.
pub open spec fn echoed(pieces: Seq<Seq<char>>) -> Seq<Seq<char>>
    decreases pieces.len(),
{
    if pieces.len() == 0 {
        seq![]
    } else if pieces.last().len() == 0 {
        echoed(pieces.drop_last())
    } else {
        echoed(pieces.drop_last()).push(without_slashes(pieces.last()))
    }
}

/// What git's exit code and output mean. 0: some paths are ignored, 1: none of
/// them are. 128 is "not a git repository", and anything else is a git that
/// cannot be reasoned about; both mean that there is no verdict.
pub open spec fn check_ignore_verdict(code: Option<i32>, stdout: Seq<u8>) -> Result<
    Seq<Seq<char>>,
    GitStatus,
> {
    if code == Some(0i32) || code == Some(1i32) {
        Ok(echoed(split(utf8_lossy(stdout), '\0')))
    } else if code == Some(128i32) {
        Err(GitStatus::NoRepo)
    } else {
        Err(GitStatus::Unavailable)
    }
}

/// The names that git considers ignored, by its exit code and its output.
pub fn parse_check_ignore(code: Option<i32>, stdout: &Vec<u8>) -> (r: Result<
    Vec<String>,
    GitStatus,
>)
    ensures
        verdict_view(r) == check_ignore_verdict(code, stdout@),
        code == Some(0i32) ==> forall|names: Seq<Seq<char>>|
            #![trigger framed(names)]
            stdout@ == framed(names) && (forall|i: int|
                0 <= i < names.len() ==> (#[trigger] names[i]).len() > 0 && !names[i].contains('\0')
                    && names[i].last() != '/') ==> verdict_view(r) == Ok::<
                Seq<Seq<char>>,
                GitStatus,
            >(names),
        code matches Some(c) ==> (r is Ok <==> c == 0 || c == 1),
        r matches Err(status) ==> status == if code == Some(128i32) {
            GitStatus::NoRepo
        } else {
            GitStatus::Unavailable
        },
{
    match code {
        Some(0) | Some(1) => {},
        Some(128) => {
            return Err(GitStatus::NoRepo);
        },
        _ => {
            return Err(GitStatus::Unavailable);
        },
    }
    let text = from_utf8_lossy(stdout.as_slice());
    proof {
        assert forall|names: Seq<Seq<char>>|
            #![trigger framed(names)]
            stdout@ == framed(names) && (forall|i: int|
                0 <= i < names.len() ==> (#[trigger] names[i]).len() > 0 && !names[i].contains('\0')
                    && names[i].last() != '/') implies echoed(split(text@, '\0')) == names by {
            lemma_framed_text(names);
            encode_utf8_valid_utf8(closed_by_zeros(names));
            encode_utf8_decode_utf8(closed_by_zeros(names));
            lemma_echoed(names);
        }
    }
    Ok(echoed_names(text.as_str()))
}

/// The names, each closed by a zero character.
spec fn closed_by_zeros(names: Seq<Seq<char>>) -> Seq<char>
    decreases names.len(),
{
    if names.len() == 0 {
        seq![]
    } else {
        (closed_by_zeros(names.drop_last()) + names.last()).push('\0')
    }
}

proof fn lemma_encode_concat(a: Seq<char>, b: Seq<char>)
    ensures
        encode_utf8(a + b) == encode_utf8(a) + encode_utf8(b),
    decreases a.len(),
{
    if a.len() == 0 {
        assert(a + b =~= b);
        assert(encode_utf8(a) + encode_utf8(b) =~= encode_utf8(b));
    } else {
        assert((a + b).drop_first() =~= a.drop_first() + b);
        lemma_encode_concat(a.drop_first(), b);
        assert(encode_utf8(a + b) =~= encode_utf8(a) + encode_utf8(b));
    }
}

proof fn lemma_encode_zero()
    ensures
        encode_utf8(seq!['\0']) == seq![0u8],
{
    let zero = seq!['\0'];
    assert('\0' as u32 == 0);
    assert((0u32 & 0x7F) as u8 == 0u8) by (bit_vector);
    assert(zero.drop_first() =~= Seq::<char>::empty());
    assert(encode_utf8(Seq::<char>::empty()) =~= Seq::<u8>::empty());
    assert(encode_utf8(zero) =~= seq![0u8]);
}

proof fn lemma_framed_text(names: Seq<Seq<char>>)
    ensures
        framed(names) == encode_utf8(closed_by_zeros(names)),
    decreases names.len(),
{
    if names.len() == 0 {
        assert(framed(names) =~= encode_utf8(closed_by_zeros(names)));
    } else {
        let (before, last) = (closed_by_zeros(names.drop_last()), names.last());
        lemma_framed_text(names.drop_last());
        lemma_encode_concat(before, last);
        lemma_encode_concat(before + last, seq!['\0']);
        lemma_encode_zero();
        assert((before + last) + seq!['\0'] =~= (before + last).push('\0'));
        assert(framed(names) =~= encode_utf8(closed_by_zeros(names)));
    }
}

proof fn lemma_echoed(names: Seq<Seq<char>>)
    requires
        forall|i: int|
            0 <= i < names.len() ==> (#[trigger] names[i]).len() > 0 && !names[i].contains('\0')
                && names[i].last() != '/',
    ensures
        echoed(split(closed_by_zeros(names), '\0')) == names,
    decreases names.len(),
{
    let none = Seq::<char>::empty();
    let blank = seq![none];
    assert(split(none, '\0') =~= blank);
    assert(blank.drop_last() =~= Seq::<Seq<char>>::empty());
    assert(echoed(Seq::<Seq<char>>::empty()) =~= Seq::<Seq<char>>::empty());
    if names.len() == 0 {
        assert(echoed(blank) =~= names);
    } else {
        let (init, last) = (names.drop_last(), names.last());
        assert(last == names[names.len() - 1]);
        assert forall|i: int| 0 <= i < init.len() implies (#[trigger] init[i]).len() > 0
            && !init[i].contains('\0') && init[i].last() != '/' by {
            assert(init[i] == names[i]);
        }
        lemma_echoed(init);
        let before = closed_by_zeros(init);
        let whole = closed_by_zeros(names);
        assert(whole =~= (before + last).push('\0') + none);
        lemma_split_concat(before + last, none, '\0');
        lemma_split_single(last, '\0');
        let pieces = split(before + last, '\0');
        assert((pieces + blank).drop_last() =~= pieces);
        assert(echoed(split(whole, '\0')) == echoed(pieces));
        if init.len() == 0 {
            assert(before + last =~= last);
            assert(pieces =~= seq![last]);
            assert(pieces.drop_last() =~= Seq::<Seq<char>>::empty());
            assert(echoed(pieces) =~= names);
        } else {
            let front = (closed_by_zeros(init.drop_last()) + init.last());
            assert(before =~= front.push('\0') + none);
            lemma_split_concat(front, none, '\0');
            lemma_split_concat(front, last, '\0');
            assert(before + last =~= front.push('\0') + last);
            let ahead = split(front, '\0');
            assert(split(before, '\0').drop_last() =~= ahead);
            assert(echoed(split(before, '\0')) == echoed(ahead));
            assert(pieces =~= ahead.push(last));
            assert(pieces.drop_last() =~= ahead);
            assert(echoed(pieces) =~= names);
        }
    }
}

/// What git echoes is understood as what it was asked: names that are not empty,
/// hold no zero character and do not end in a slash come back as they are, given
/// that decoding loses nothing of valid text.
pub proof fn law_echo_is_understood(names: Seq<Seq<char>>, code: i32)
    requires
        utf8_lossy(framed(names)) == decode_utf8(framed(names)),
        code == 0 || code == 1,
        forall|i: int|
            0 <= i < names.len() ==> (#[trigger] names[i]).len() > 0 && !names[i].contains('\0')
                && names[i].last() != '/',
    ensures
        check_ignore_verdict(Some(code), framed(names)) == Ok::<Seq<Seq<char>>, GitStatus>(names),
{
    lemma_framed_text(names);
    encode_utf8_decode_utf8(closed_by_zeros(names));
    lemma_echoed(names);
}

/// Slashes at the end of a name do not count, and nothing else is taken off it.
pub proof fn law_only_slashes_come_off(name: Seq<char>, slashes: nat)
    requires
        name.len() > 0 ==> name.last() != '/',
    ensures
        without_slashes(name + Seq::new(slashes, |i: int| '/')) == name,
    decreases slashes,
{
    let tail = Seq::new(slashes, |i: int| '/');
    if slashes == 0 {
        assert(name + tail =~= name);
    } else {
        let less = (slashes - 1) as nat;
        law_only_slashes_come_off(name, less);
        assert((name + tail).drop_last() =~= name + Seq::new(less, |i: int| '/'));
        assert((name + tail).last() == '/');
    }
}

/// What is written to git is each name in UTF-8 with a zero byte behind it.
pub proof fn law_names_are_framed(names: Seq<Seq<char>>, name: Seq<char>)
    ensures
        framed(Seq::<Seq<char>>::empty()) == Seq::<u8>::empty(),
        framed(names.push(name)) == framed(names) + encode_utf8(name) + seq![0u8],
{
    assert(names.push(name).drop_last() =~= names);
    assert(framed(names.push(name)) =~= framed(names) + encode_utf8(name) + seq![0u8]);
}

/// A candidate is kept exactly where git echoes the name by which it was asked
/// about it: where git echoes some of the names unchanged, the candidates behind
/// them are kept, the others are dropped, and each stays in its place in the order.
pub proof fn law_echoed_candidates_are_kept(
    root: PathFact,
    candidates: Seq<PathFact>,
    echo: Seq<Seq<char>>,
    i: int,
)
    requires
        utf8_lossy(framed(echo)) == decode_utf8(framed(echo)),
        forall|k: int|
            0 <= k < echo.len() ==> (#[trigger] echo[k]).len() > 0 && !echo[k].contains('\0')
                && echo[k].last() != '/',
        0 <= i < candidates.len(),
    ensures
        ({
            let (keep, dropped, status) = partition(
                root,
                candidates,
                check_ignore_verdict(Some(0i32), framed(echo)),
            );
            let name = candidates[i].relative_to(root).shown();
            &&& keep.contains(candidates[i]) <==> echo.contains(name)
            &&& dropped.contains(candidates[i]) <==> !echo.contains(name)
        }),
{
    law_echo_is_understood(echo, 0);
    let verdict = Ok::<Seq<Seq<char>>, GitStatus>(echo);
    law_partition(root, candidates, verdict);
    let (keep, dropped, status) = partition(root, candidates, verdict);
    let keeps = |p: PathFact| echo.contains(git_name(root, p));
    let drops = |p: PathFact| !echo.contains(git_name(root, p));
    lemma_filter_takes(candidates, keeps, i);
    lemma_filter_takes(candidates, drops, i);
}

proof fn lemma_filter_takes<A>(s: Seq<A>, pred: spec_fn(A) -> bool, i: int)
    requires
        0 <= i < s.len(),
    ensures
        pred(s[i]) ==> s.filter(pred).contains(s[i]),
    decreases s.len(),
{
    reveal(Seq::filter);
    let init = s.drop_last();
    let kept = init.filter(pred);
    if pred(s[i]) {
        if i < init.len() {
            lemma_filter_takes(init, pred, i);
            let k = choose|k: int| 0 <= k < kept.len() && kept[k] == s[i];
            assert(s.filter(pred)[k] == s[i]);
        } else {
            assert(s.filter(pred)[kept.len() as int] == s[i]);
        }
    }
}

/// The names in what git echoed.
pub fn echoed_names(text: &str) -> (r: Vec<String>)
    ensures
        texts(r@) == echoed(split(text@, '\0')),
{
    let pieces = split_chars(&chars_of(text), '\0');
    let ghost all = texts(pieces@);
    let mut out: Vec<String> = Vec::new();
    let mut i: usize = 0;
    assert(all.take(0) =~= seq![]);
    assert(texts(out@) =~= echoed(all.take(0)));
    while i < pieces.len()
        invariant
            0 <= i <= pieces.len(),
            all == texts(pieces@),
            texts(out@) == echoed(all.take(i as int)),
        decreases pieces.len() - i,
    {
        assert(all.take(i + 1).drop_last() =~= all.take(i as int));
        assert(all.take(i + 1).last() == pieces@[i as int]@);
        if !pieces[i].as_str().is_empty() {
            let name = normalise(pieces[i].as_str());
            proof {
                lemma_texts_push(out@, name);
            }
            out.push(name);
        }
        i = i + 1;
    }
    assert(all.take(all.len() as int) =~= all);
    out
}

} // verus!

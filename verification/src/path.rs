//! Unix paths as texts: their components, their normal form, and prefixes by whole components.

use crate::text::{chars_of, joined, same_text, string_of, texts};
use vstd::prelude::*;

verus! {

/// The component that stands for the root directory.
pub open spec fn root() -> Seq<char> {
    seq!['/']
}

/// The component that stands for the current directory.
pub open spec fn current() -> Seq<char> {
    seq!['.']
}

/// The component that stands for the parent directory.
pub open spec fn parent() -> Seq<char> {
    seq!['.', '.']
}

/// The pieces of a text between its slashes.
pub open spec fn pieces(text: Seq<char>) -> Seq<Seq<char>>
    decreases text.len(),
{
    if text.len() == 0 {
        seq![Seq::empty()]
    } else {
        let before = pieces(text.drop_last());
        if text.last() == '/' {
            before.push(Seq::empty())
        } else {
            before.drop_last().push(before.last().push(text.last()))
        }
    }
}

/// The pieces that name something: neither empty nor the current directory.
pub open spec fn named(pieces: Seq<Seq<char>>) -> Seq<Seq<char>>
    decreases pieces.len(),
{
    if pieces.len() == 0 {
        Seq::empty()
    } else if pieces.last().len() == 0 || pieces.last() == current() {
        named(pieces.drop_last())
    } else {
        named(pieces.drop_last()).push(pieces.last())
    }
}

/// What a path starts with: the root, the current directory if it is spelled out, or neither.
pub open spec fn start(path: Seq<char>) -> Seq<Seq<char>> {
    if path.len() > 0 && path[0] == '/' {
        seq![root()]
    } else if pieces(path)[0] == current() {
        seq![current()]
    } else {
        Seq::empty()
    }
}

/// The components of a path. Repeated slashes, a trailing slash, and `.` anywhere but at the start
/// of a relative path leave no trace.
pub open spec fn components(path: Seq<char>) -> Seq<Seq<char>> {
    start(path) + named(pieces(path))
}

/// Components with `.` left out and `..` carried out; the parent of the root is the root, and
/// where nothing is left, nothing is taken away.
pub open spec fn resolved(parts: Seq<Seq<char>>) -> Seq<Seq<char>>
    decreases parts.len(),
{
    if parts.len() == 0 {
        Seq::empty()
    } else {
        let before = resolved(parts.drop_last());
        let part = parts.last();
        if part == current() {
            before
        } else if part == parent() {
            if before.len() == 0 || before.last() == root() {
                before
            } else {
                before.drop_last()
            }
        } else if part == root() {
            seq![root()]
        } else {
            before.push(part)
        }
    }
}

/// Resolved components; where nothing is left, the root.
pub open spec fn normal(parts: Seq<Seq<char>>) -> Seq<Seq<char>> {
    let rest = resolved(parts);
    if rest.len() == 0 {
        seq![root()]
    } else {
        rest
    }
}

/// Components written as a path.
pub open spec fn rendered(parts: Seq<Seq<char>>) -> Seq<char> {
    if parts.len() > 0 && parts[0] == root() {
        root() + joined(parts.drop_first(), root())
    } else {
        joined(parts, root())
    }
}

/// A path in its normal form.
pub open spec fn normal_path(path: Seq<char>) -> Seq<char> {
    rendered(normal(components(path)))
}

/// Whether a path starts at the root.
pub open spec fn is_absolute(path: Seq<char>) -> bool {
    path.len() > 0 && path[0] == '/'
}

/// Whether the components of `prefix` are the first ones of `path`.
pub open spec fn starts_with(path: Seq<char>, prefix: Seq<char>) -> bool {
    components(prefix).is_prefix_of(components(path))
}

proof fn lemma_literals()
    ensures
        "/"@ == root(),
        "."@ == current(),
        ".."@ == parent(),
{
    reveal_strlit("/");
    reveal_strlit(".");
    reveal_strlit("..");
    assert("/"@ =~= root());
    assert("."@ =~= current());
    assert(".."@ =~= parent());
}

proof fn lemma_pieces_some(text: Seq<char>)
    ensures
        pieces(text).len() > 0,
    decreases text.len(),
{
    if text.len() > 0 {
        lemma_pieces_some(text.drop_last());
    }
}

fn split_pieces(path: &str) -> (parts: Vec<String>)
    ensures
        texts(parts@) == pieces(path@),
{
    let source = chars_of(path);
    let mut parts: Vec<String> = Vec::new();
    let mut piece: Vec<char> = Vec::new();
    let mut i: usize = 0;
    proof {
        assert(source@.take(0) =~= Seq::<char>::empty());
        assert(texts(parts@).push(piece@) =~= pieces(source@.take(0)));
    }
    while i < source.len()
        invariant
            i <= source@.len(),
            source@ == path@,
            texts(parts@).push(piece@) == pieces(source@.take(i as int)),
        decreases source.len() - i,
    {
        let ch: char = source[i];
        let ghost whole = pieces(source@.take(i + 1));
        let ghost before = pieces(source@.take(i as int));
        proof {
            assert(source@.take(i + 1).drop_last() =~= source@.take(i as int));
            assert(before.drop_last() =~= texts(parts@));
            assert(before.last() == piece@);
        }
        if ch == '/' {
            let ghost earlier = texts(parts@);
            let ghost ended = piece@;
            parts.push(string_of(&piece));
            piece = Vec::new();
            proof {
                assert(texts(parts@) =~= earlier.push(ended));
                assert(texts(parts@).push(piece@) =~= whole);
            }
        } else {
            piece.push(ch);
            assert(texts(parts@).push(piece@) =~= whole);
        }
        i = i + 1;
    }
    proof {
        assert(source@.take(i as int) =~= source@);
    }
    let ghost earlier = texts(parts@);
    parts.push(string_of(&piece));
    assert(texts(parts@) =~= earlier.push(piece@));
    parts
}

/// The components of a path.
pub fn split_path(path: &str) -> (parts: Vec<String>)
    ensures
        texts(parts@) == components(path@),
{
    let all = split_pieces(path);
    proof {
        lemma_literals();
        lemma_pieces_some(path@);
    }
    let mut parts: Vec<String> = Vec::new();
    if absolute(path) {
        parts.push("/".to_owned());
    } else if same_text(all[0].as_str(), ".") {
        parts.push(".".to_owned());
    }
    assert(texts(parts@) =~= start(path@));
    let mut i: usize = 0;
    assert(texts(all@).take(0) =~= Seq::<Seq<char>>::empty());
    assert(texts(parts@) =~= start(path@) + named(texts(all@).take(0)));
    while i < all.len()
        invariant
            i <= all@.len(),
            "."@ == current(),
            texts(parts@) == start(path@) + named(texts(all@).take(i as int)),
        decreases all.len() - i,
    {
        let ghost seen = texts(all@).take(i + 1);
        assert(seen.drop_last() =~= texts(all@).take(i as int));
        if !all[i].as_str().is_empty() && !same_text(all[i].as_str(), ".") {
            let ghost earlier = texts(parts@);
            parts.push(all[i].clone());
            assert(texts(parts@) =~= earlier.push(seen.last()));
            assert(texts(parts@) =~= start(path@) + named(seen));
        }
        i = i + 1;
    }
    assert(texts(all@).take(i as int) =~= texts(all@));
    parts
}

/// Whether a path starts at the root.
pub fn absolute(path: &str) -> (absolute: bool)
    ensures
        absolute == is_absolute(path@),
{
    !path.is_empty() && path.get_char(0) == '/'
}

fn resolve(parts: &Vec<String>) -> (rest: Vec<String>)
    ensures
        texts(rest@) == normal(texts(parts@)),
{
    let mut rest: Vec<String> = Vec::new();
    let mut i: usize = 0;
    proof {
        lemma_literals();
        assert(texts(parts@).take(0) =~= Seq::<Seq<char>>::empty());
        assert(texts(rest@) =~= resolved(texts(parts@).take(0)));
    }
    while i < parts.len()
        invariant
            i <= parts@.len(),
            "/"@ == root(),
            "."@ == current(),
            ".."@ == parent(),
            texts(rest@) == resolved(texts(parts@).take(i as int)),
        decreases parts.len() - i,
    {
        let ghost seen = texts(parts@).take(i + 1);
        let ghost earlier = texts(rest@);
        proof {
            assert(seen.drop_last() =~= texts(parts@).take(i as int));
            assert(seen.last() == parts@[i as int]@);
        }
        let part = parts[i].as_str();
        if same_text(part, ".") {
        } else if same_text(part, "..") {
            if rest.len() > 0 && !same_text(rest[rest.len() - 1].as_str(), "/") {
                rest.pop();
                assert(texts(rest@) =~= earlier.drop_last());
            }
        } else if same_text(part, "/") {
            rest = Vec::new();
            rest.push("/".to_owned());
            assert(texts(rest@) =~= seq![root()]);
        } else {
            rest.push(parts[i].clone());
            assert(texts(rest@) =~= earlier.push(seen.last()));
        }
        i = i + 1;
    }
    assert(texts(parts@).take(i as int) =~= texts(parts@));
    if rest.len() == 0 {
        rest.push("/".to_owned());
        assert(texts(rest@) =~= seq![root()]);
    }
    rest
}

fn render(parts: &Vec<String>) -> (path: String)
    ensures
        path@ == rendered(texts(parts@)),
{
    let mut path = String::new();
    let mut i: usize = 0;
    let ghost all = texts(parts@);
    proof {
        lemma_literals();
    }
    let rooted = parts.len() > 0 && same_text(parts[0].as_str(), "/");
    if rooted {
        path.append("/");
        i = 1;
    }
    let ghost head = path@;
    let ghost tail = if rooted {
        all.drop_first()
    } else {
        all
    };
    let ghost first = i as int;
    proof {
        assert(tail.take(0) =~= Seq::<Seq<char>>::empty());
        assert(path@ =~= head + joined(tail.take(0), root()));
    }
    while i < parts.len()
        invariant
            first <= i <= parts@.len(),
            first == (if rooted {
                1int
            } else {
                0int
            }),
            "/"@ == root(),
            all == texts(parts@),
            tail == (if rooted {
                all.drop_first()
            } else {
                all
            }),
            path@ == head + joined(tail.take(i - first), root()),
        decreases parts.len() - i,
    {
        let ghost count = i - first;
        let ghost earlier = path@;
        if i > (if rooted {
            1
        } else {
            0
        }) {
            path.append("/");
        }
        path.append(parts[i].as_str());
        proof {
            assert(tail.take(count + 1).drop_last() =~= tail.take(count));
            assert(tail[count] == parts@[i as int]@);
            if count == 0 {
                assert(path@ =~= head + tail[0]);
            } else {
                assert(path@ =~= head + (joined(tail.take(count), root()) + root()
                    + tail[count]));
            }
        }
        i = i + 1;
    }
    assert(tail.take(i - first) =~= tail);
    assert(path@ =~= rendered(all));
    path
}

/// A path in its normal form: no `.`, no `..`, no repeated or trailing slashes. A path of which
/// nothing is left is the root.
pub fn normalize_path(path: &str) -> (normalized: String)
    ensures
        normalized@ == normal_path(path@),
{
    render(&resolve(&split_path(path)))
}

/// The components of a path after the first ones, put behind those of another, in normal form. A
/// tail that starts at the root stands alone.
pub fn rebase(target: &str, path: &str, from: usize) -> (rebased: String)
    requires
        from <= components(path@).len(),
    ensures
        rebased@ == rendered(rebased_parts(target@, path@, from as int)),
{
    let mut parts = split_path(target);
    let tail = split_path(path);
    let mut i: usize = from;
    let ghost base = components(target@);
    let ghost rest = components(path@);
    proof {
        lemma_literals();
        assert(texts(parts@) =~= base + rest.subrange(from as int, from as int));
    }
    while i < tail.len()
        invariant
            from <= i <= tail@.len(),
            texts(tail@) == rest,
            texts(parts@) == base + rest.subrange(from as int, i as int),
        decreases tail.len() - i,
    {
        let ghost earlier = texts(parts@);
        parts.push(tail[i].clone());
        proof {
            assert(texts(parts@) =~= earlier.push(rest[i as int]));
            assert(texts(parts@) =~= base + rest.subrange(from as int, i + 1));
        }
        i = i + 1;
    }
    assert(rest.subrange(from as int, i as int) =~= rest.skip(from as int));
    render(&resolve(&parts))
}

/// The components of `path` from `from` on, behind those of `target`, in normal form.
pub open spec fn rebased_parts(target: Seq<char>, path: Seq<char>, from: int) -> Seq<Seq<char>> {
    normal(components(target) + components(path).skip(from))
}

/// Whether two paths have the same components.
pub fn same_path(left: &str, right: &str) -> (same: bool)
    ensures
        same == (components(left@) == components(right@)),
{
    let a = split_path(left);
    let b = split_path(right);
    if a.len() != b.len() {
        assert(texts(a@).len() != texts(b@).len());
        return false;
    }
    shares(&a, &b)
}

/// Whether the components of `prefix` are the first ones of `path`.
pub fn begins_with(path: &str, prefix: &str) -> (begins: bool)
    ensures
        begins == starts_with(path@, prefix@),
{
    let whole = split_path(path);
    let first = split_path(prefix);
    if first.len() > whole.len() {
        assert(components(prefix@).len() > components(path@).len());
        return false;
    }
    shares(&whole, &first)
}

fn shares(whole: &Vec<String>, first: &Vec<String>) -> (shares: bool)
    requires
        first@.len() <= whole@.len(),
    ensures
        shares == texts(first@).is_prefix_of(texts(whole@)),
        whole@.len() == first@.len() ==> shares == (texts(first@) == texts(whole@)),
{
    let mut i: usize = 0;
    while i < first.len()
        invariant
            i <= first@.len(),
            first@.len() <= whole@.len(),
            forall|j: int| 0 <= j < i ==> texts(first@)[j] == texts(whole@)[j],
        decreases first.len() - i,
    {
        if !same_text(first[i].as_str(), whole[i].as_str()) {
            proof {
                assert(texts(first@)[i as int] != texts(whole@)[i as int]);
                assert(texts(whole@).subrange(0, first@.len() as int)[i as int] == texts(whole@)[i as int]);
            }
            return false;
        }
        i = i + 1;
    }
    proof {
        assert(texts(first@) =~= texts(whole@).subrange(0, first@.len() as int));
        if whole@.len() == first@.len() {
            assert(texts(first@) =~= texts(whole@));
        }
    }
    true
}

/// A component that names a file or directory below another.
pub open spec fn is_plain(part: Seq<char>) -> bool {
    part.len() > 0 && !part.contains('/') && part != current() && part != parent()
}

/// Components of a path in normal form: plain ones, behind the root or none.
pub open spec fn is_normal(parts: Seq<Seq<char>>) -> bool {
    &&& parts.len() > 0
    &&& parts[0] == root() || is_plain(parts[0])
    &&& forall|i: int| 1 <= i < parts.len() ==> is_plain(#[trigger] parts[i])
}

proof fn lemma_pieces_concat(left: Seq<char>, right: Seq<char>)
    ensures
        pieces(left + root() + right) == pieces(left) + pieces(right),
    decreases right.len(),
{
    let whole = left + root() + right;
    if right.len() == 0 {
        assert(whole.drop_last() =~= left);
        assert(pieces(whole) =~= pieces(left) + pieces(right));
    } else {
        lemma_pieces_concat(left, right.drop_last());
        lemma_pieces_some(right.drop_last());
        assert(whole.drop_last() =~= left + root() + right.drop_last());
        let before = pieces(right.drop_last());
        assert((pieces(left) + before).drop_last() =~= pieces(left) + before.drop_last());
        assert(pieces(whole) =~= pieces(left) + pieces(right));
    }
}

proof fn lemma_piece_without_slash(text: Seq<char>)
    requires
        !text.contains('/'),
    ensures
        pieces(text) == seq![text],
    decreases text.len(),
{
    if text.len() > 0 {
        let before = text.drop_last();
        assert forall|i: int| 0 <= i < before.len() implies before[i] != '/' by {
            assert(before[i] == text[i]);
        }
        lemma_piece_without_slash(before);
        assert(text.last() != '/') by {
            assert(text[text.len() - 1] == text.last());
        }
        assert(before.push(text.last()) =~= text);
        assert(pieces(text) =~= seq![text]);
    } else {
        assert(text =~= Seq::<char>::empty());
        assert(pieces(text) =~= seq![text]);
    }
}

proof fn lemma_pieces_have_no_slash(text: Seq<char>)
    ensures
        forall|i: int| 0 <= i < pieces(text).len() ==> !(#[trigger] pieces(text)[i]).contains('/'),
    decreases text.len(),
{
    if text.len() > 0 {
        let before = pieces(text.drop_last());
        lemma_pieces_have_no_slash(text.drop_last());
        lemma_pieces_some(text.drop_last());
        assert forall|i: int| 0 <= i < pieces(text).len() implies !(#[trigger] pieces(
            text,
        )[i]).contains('/') by {
            let piece = pieces(text)[i];
            if text.last() == '/' {
                if i < before.len() {
                    assert(piece == before[i]);
                }
            } else if i < before.len() - 1 {
                assert(piece == before[i]);
            } else {
                let prior = before.last();
                assert(prior == before[before.len() - 1]);
                assert(piece == prior.push(text.last()));
                if piece.contains('/') {
                    let k = choose|k: int| 0 <= k < piece.len() && piece[k] == '/';
                    assert(k < prior.len());
                    assert(prior[k] == '/');
                }
            }
        }
    }
}

proof fn lemma_named_parts(all: Seq<Seq<char>>)
    requires
        forall|i: int| 0 <= i < all.len() ==> !(#[trigger] all[i]).contains('/'),
    ensures
        forall|i: int|
            0 <= i < named(all).len() ==> (#[trigger] named(all)[i]).len() > 0 && !named(
                all,
            )[i].contains('/') && named(all)[i] != current(),
    decreases all.len(),
{
    if all.len() > 0 {
        lemma_named_parts(all.drop_last());
        let before = named(all.drop_last());
        assert(all.last() == all[all.len() - 1]);
        assert forall|i: int| 0 <= i < named(all).len() implies (#[trigger] named(all)[i]).len()
            > 0 && !named(all)[i].contains('/') && named(all)[i] != current() by {
            if i < before.len() {
                assert(named(all)[i] == before[i]);
            }
        }
    }
}

proof fn lemma_resolved_plain(parts: Seq<Seq<char>>)
    requires
        forall|i: int|
            1 <= i < parts.len() ==> (#[trigger] parts[i]).len() > 0 && !parts[i].contains('/'),
        parts.len() > 0 ==> parts[0] == root() || (parts[0].len() > 0 && !parts[0].contains('/')),
    ensures
        resolved(parts).len() > 0 ==> is_normal(resolved(parts)),
    decreases parts.len(),
{
    if parts.len() > 0 {
        let before = parts.drop_last();
        assert forall|i: int| 1 <= i < before.len() implies (#[trigger] before[i]).len() > 0
            && !before[i].contains('/') by {
            assert(before[i] == parts[i]);
        }
        if before.len() > 0 {
            assert(before[0] == parts[0]);
        }
        lemma_resolved_plain(before);
        let done = resolved(before);
        let part = parts.last();
        if part != current() && part != parent() && part != root() {
            assert(part == parts[parts.len() - 1]);
            assert(is_plain(part));
            let after = done.push(part);
            assert forall|i: int| 1 <= i < after.len() implies is_plain(#[trigger] after[i]) by {
                if i < done.len() {
                    assert(after[i] == done[i]);
                }
            }
            if done.len() > 0 {
                assert(after[0] == done[0]);
            }
        } else if part == parent() && done.len() > 0 && done.last() != root() {
            let after = done.drop_last();
            if after.len() > 0 {
                assert(after[0] == done[0]);
                assert forall|i: int| 1 <= i < after.len() implies is_plain(#[trigger] after[i]) by {
                    assert(after[i] == done[i]);
                }
            }
        }
    }
}

/// The normal form of a path has components in normal form.
pub proof fn lemma_normal_is_normal(path: Seq<char>)
    ensures
        is_normal(normal(components(path))),
{
    lemma_pieces_have_no_slash(path);
    lemma_named_parts(pieces(path));
    let parts = components(path);
    assert forall|i: int| 1 <= i < parts.len() implies (#[trigger] parts[i]).len() > 0
        && !parts[i].contains('/') by {
        assert(parts[i] == named(pieces(path))[i - start(path).len()]);
    }
    if parts.len() > 0 {
        if start(path).len() == 0 {
            assert(parts[0] == named(pieces(path))[0]);
        } else {
            assert(parts[0] == start(path)[0]);
            assert(!current().contains('/')) by {
                assert(current()[0] == '.');
            }
        }
    }
    lemma_resolved_plain(parts);
}

proof fn lemma_joined_pieces(parts: Seq<Seq<char>>)
    requires
        parts.len() > 0,
        forall|i: int| 0 <= i < parts.len() ==> !(#[trigger] parts[i]).contains('/'),
    ensures
        pieces(joined(parts, root())) == parts,
    decreases parts.len(),
{
    let last = parts.last();
    assert(last == parts[parts.len() - 1]);
    lemma_piece_without_slash(last);
    if parts.len() == 1 {
        assert(parts =~= seq![last]);
    } else {
        let before = parts.drop_last();
        assert forall|i: int| 0 <= i < before.len() implies !(#[trigger] before[i]).contains(
            '/',
        ) by {
            assert(before[i] == parts[i]);
        }
        lemma_joined_pieces(before);
        lemma_pieces_concat(joined(before, root()), last);
        assert(before + seq![last] =~= parts);
    }
}

proof fn lemma_named_all(parts: Seq<Seq<char>>)
    requires
        forall|i: int| 0 <= i < parts.len() ==> is_plain(#[trigger] parts[i]),
    ensures
        named(parts) == parts,
    decreases parts.len(),
{
    if parts.len() > 0 {
        let before = parts.drop_last();
        assert forall|i: int| 0 <= i < before.len() implies is_plain(#[trigger] before[i]) by {
            assert(before[i] == parts[i]);
        }
        lemma_named_all(before);
        assert(is_plain(parts[parts.len() - 1]));
        assert(before.push(parts.last()) =~= parts);
    } else {
        assert(named(parts) =~= parts);
    }
}

proof fn lemma_named_behind_nothing(parts: Seq<Seq<char>>)
    ensures
        named(seq![Seq::<char>::empty()] + parts) == named(parts),
    decreases parts.len(),
{
    let whole = seq![Seq::<char>::empty()] + parts;
    if parts.len() == 0 {
        assert(whole.drop_last() =~= Seq::<Seq<char>>::empty());
        assert(whole.last().len() == 0);
        reveal_with_fuel(named, 2);
        assert(named(whole) =~= named(parts));
    } else {
        lemma_named_behind_nothing(parts.drop_last());
        assert(whole.drop_last() =~= seq![Seq::<char>::empty()] + parts.drop_last());
        assert(whole.last() == parts.last());
    }
}

/// Components in normal form, written as a path, are the components of that path.
pub proof fn lemma_rendered_components(parts: Seq<Seq<char>>)
    requires
        is_normal(parts),
    ensures
        components(rendered(parts)) == parts,
{
    let path = rendered(parts);
    if parts[0] == root() {
        let tail = parts.drop_first();
        assert forall|i: int| 0 <= i < tail.len() implies is_plain(#[trigger] tail[i]) by {
            assert(tail[i] == parts[i + 1]);
        }
        let rest = joined(tail, root());
        assert(path =~= Seq::<char>::empty() + root() + rest);
        lemma_pieces_concat(Seq::empty(), rest);
        lemma_named_behind_nothing(pieces(rest));
        assert(pieces(Seq::<char>::empty()) =~= seq![Seq::<char>::empty()]);
        if tail.len() > 0 {
            lemma_joined_pieces(tail);
            lemma_named_all(tail);
        } else {
            assert(rest =~= Seq::<char>::empty());
            reveal_with_fuel(named, 2);
            assert(named(pieces(rest)) =~= tail);
        }
        assert(path[0] == '/');
        assert(components(path) =~= parts);
    } else {
        assert forall|i: int| 0 <= i < parts.len() implies is_plain(#[trigger] parts[i]) by {}
        lemma_joined_pieces(parts);
        lemma_named_all(parts);
        assert(pieces(path)[0] != current());
        assert(!is_absolute(path)) by {
            if is_absolute(path) {
                let rest = path.drop_first();
                assert(path =~= Seq::<char>::empty() + root() + rest);
                lemma_pieces_concat(Seq::empty(), rest);
                assert(pieces(path)[0].len() == 0);
            }
        }
        assert(components(path) =~= parts);
    }
}

/// Components in normal form stay as they are.
pub proof fn lemma_normal_stays(parts: Seq<Seq<char>>)
    requires
        is_normal(parts),
    ensures
        normal(parts) == parts,
        resolved(parts) == parts,
    decreases parts.len(),
{
    let before = parts.drop_last();
    let last = parts.last();
    assert(last == parts[parts.len() - 1]);
    if before.len() > 0 {
        assert(before[0] == parts[0]);
        assert forall|i: int| 1 <= i < before.len() implies is_plain(#[trigger] before[i]) by {
            assert(before[i] == parts[i]);
        }
        lemma_normal_stays(before);
    }
    if is_plain(last) {
        assert(last != root()) by {
            assert(root()[0] == '/');
            assert(root().contains('/'));
        }
        assert(resolved(before) =~= before);
        assert(before.push(last) =~= parts);
    } else {
        assert(parts =~= seq![root()]);
        assert(root() != current() && root() != parent()) by {
            assert(root()[0] != current()[0]);
            assert(root().len() != parent().len());
        }
    }
}

/// The components of a path in normal form are the resolved components of the path, and a path
/// in normal form stays as it is.
pub proof fn law_normal_form_is_stable(path: Seq<char>)
    ensures
        components(normal_path(path)) == normal(components(path)),
        normal_path(normal_path(path)) == normal_path(path),
{
    lemma_normal_is_normal(path);
    lemma_rendered_components(normal(components(path)));
    lemma_normal_stays(normal(components(path)));
}

/// What lies below a directory in normal form keeps its place below the directory it moves to.
pub proof fn law_rebased_keeps_relative_path(target: Seq<char>, source: Seq<char>, path: Seq<char>)
    requires
        starts_with(normal_path(path), normal_path(source)),
    ensures
        rebased_parts(
            normal_path(target),
            normal_path(path),
            components(normal_path(source)).len() as int,
        ) == components(normal_path(target)) + components(normal_path(path)).skip(
            components(normal_path(source)).len() as int,
        ),
{
    law_normal_form_is_stable(target);
    law_normal_form_is_stable(source);
    law_normal_form_is_stable(path);
    lemma_normal_is_normal(target);
    lemma_normal_is_normal(source);
    lemma_normal_is_normal(path);
    let base = components(normal_path(target));
    let count = components(normal_path(source)).len() as int;
    let tail = components(normal_path(path)).skip(count);
    let whole = base + tail;
    assert forall|i: int| 1 <= i < whole.len() implies is_plain(#[trigger] whole[i]) by {
        if i < base.len() {
            assert(whole[i] == base[i]);
        } else {
            assert(whole[i] == components(normal_path(path))[i - base.len() + count]);
        }
    }
    assert(whole[0] == base[0]);
    lemma_normal_stays(whole);
}

/// A slash separates components: a name behind one is one component more, whatever stands before it;
/// a trailing slash, a doubled one and a `.` behind one add nothing. A path that begins with a slash
/// begins with the root.
pub proof fn law_slashes_separate_components(left: Seq<char>, name: Seq<char>)
    requires
        name.len() > 0,
        !name.contains('/'),
        name != seq!['.'],
    ensures
        left.len() > 0 ==> components(left + seq!['/'] + name) == components(left).push(name),
        left.len() > 0 ==> components(left + seq!['/']) == components(left),
        left.len() > 0 ==> components(left + seq!['/', '.']) == components(left),
        components(seq!['/'] + name) == seq![seq!['/'], name],
        components(name) == seq![name],
        components(seq!['/']) == seq![seq!['/']],
        components(seq!['.']) == seq![seq!['.']],
        components(Seq::<char>::empty()) == Seq::<Seq<char>>::empty(),
{
    let none = Seq::<char>::empty();
    let dot = seq!['.'];
    lemma_piece_without_slash(name);
    assert(!none.contains('/'));
    lemma_piece_without_slash(none);
    assert(!dot.contains('/')) by {
        assert(dot[0] == '.');
    }
    lemma_piece_without_slash(dot);
    lemma_named_push(pieces(left), name);
    lemma_named_push(pieces(left), none);
    lemma_named_push(pieces(left), dot);
    lemma_pieces_concat(left, name);
    lemma_pieces_concat(left, none);
    lemma_pieces_concat(left, dot);
    lemma_pieces_some(left);
    assert(left + root() + none =~= left + seq!['/']);
    assert(left + root() + dot =~= left + seq!['/', '.']);
    if left.len() > 0 {
        let a = left + seq!['/'] + name;
        assert(a[0] == left[0]);
        assert(pieces(a)[0] == pieces(left)[0]);
        assert(components(a) =~= components(left).push(name));
        let b = left + seq!['/'];
        assert(b[0] == left[0]);
        assert(pieces(b)[0] == pieces(left)[0]);
        let c = left + seq!['/', '.'];
        assert(c[0] == left[0]);
        assert(pieces(c)[0] == pieces(left)[0]);
    }
    lemma_pieces_concat(none, name);
    lemma_pieces_concat(none, none);
    lemma_named_push(pieces(none), name);
    lemma_named_push(pieces(none), none);
    lemma_named_push(Seq::empty(), name);
    lemma_named_push(Seq::empty(), none);
    lemma_named_push(Seq::empty(), dot);
    assert(Seq::<Seq<char>>::empty().push(name) =~= seq![name]);
    assert(Seq::<Seq<char>>::empty().push(none) =~= seq![none]);
    assert(Seq::<Seq<char>>::empty().push(dot) =~= seq![dot]);
    assert(none + root() + name =~= seq!['/'] + name);
    assert(none + root() + none =~= seq!['/']);
    assert(components(seq!['/'] + name) =~= seq![seq!['/'], name]);
    assert(components(seq!['/']) =~= seq![seq!['/']]);
    assert(name[0] != '/');
    assert(components(name) =~= seq![name]);
    assert(components(dot) =~= seq![dot]);
    assert(none != current()) by {
        assert(current().len() == 1);
    }
    assert(components(none) =~= Seq::<Seq<char>>::empty());
}

proof fn lemma_named_push(all: Seq<Seq<char>>, piece: Seq<char>)
    ensures
        named(all + seq![piece]) == (if piece.len() == 0 || piece == current() {
            named(all)
        } else {
            named(all).push(piece)
        }),
        named(all.push(piece)) == named(all + seq![piece]),
        named(Seq::empty()) == Seq::<Seq<char>>::empty(),
{
    assert((all + seq![piece]).drop_last() =~= all);
    assert(all.push(piece) =~= all + seq![piece]);
}

/// The normal form of an absolute path follows it step by step: a name goes one step down, `..` one
/// step up but never above the root, and `.` and superfluous slashes go nowhere. It is written with
/// one slash before each component and none behind the last.
pub proof fn law_normal_form_follows_the_path(left: Seq<char>, name: Seq<char>)
    requires
        left.len() > 0,
        left[0] == '/',
        name.len() > 0,
        !name.contains('/'),
        name != seq!['.'],
        name != seq!['.', '.'],
    ensures
        normal_path(seq!['/']) == seq!['/'],
        normal_path(left + seq!['/']) == normal_path(left),
        normal_path(left + seq!['/', '.']) == normal_path(left),
        components(normal_path(left + seq!['/'] + name)) == components(normal_path(left)).push(name),
        components(normal_path(left + seq!['/', '.', '.'])) == (if components(
            normal_path(left),
        ).len() > 1 {
            components(normal_path(left)).drop_last()
        } else {
            components(normal_path(left))
        }),
        normal_path(left + seq!['/'] + name) == (if normal_path(left) == seq!['/'] {
            seq!['/'] + name
        } else {
            normal_path(left) + seq!['/'] + name
        }),
        components(normal_path(left))[0] == seq!['/'],
        normal_path(left).len() > 0,
        normal_path(left)[0] == '/',
{
    let up = seq!['.', '.'];
    assert(up.len() == 2 && up[0] == '.' && up[1] == '.');
    assert(!up.contains('/'));
    assert(up != seq!['.']) by {
        assert(seq!['.'].len() == 1);
    }
    law_slashes_separate_components(left, name);
    law_slashes_separate_components(left, up);
    assert(left + seq!['/'] + up =~= left + seq!['/', '.', '.']);
    let parts = components(left);
    assert(parts[0] == root());
    lemma_resolved_from_root(left);
    law_normal_form_is_stable(left);
    law_normal_form_is_stable(left + seq!['/'] + name);
    law_normal_form_is_stable(left + seq!['/', '.', '.']);
    law_normal_form_is_stable(seq!['/']);
    assert(name != root()) by {
        assert(root().contains('/')) by {
            assert(root()[0] == '/');
        }
    }
    assert(parts.push(name).drop_last() =~= parts);
    assert(parts.push(up).drop_last() =~= parts);
    assert(up == parent());
    let base = resolved(parts);
    assert(resolved(parts.push(name)) == base.push(name));
    lemma_normal_is_normal(left);
    if base.len() > 1 {
        assert(is_plain(base[base.len() - 1]));
        assert(base.last() != root()) by {
            assert(root().contains('/')) by {
                assert(root()[0] == '/');
            }
        }
        assert(base.drop_last()[0] == base[0]);
    } else {
        assert(base.last() == root());
    }
    let tail = base.drop_first();
    assert(base.push(name).drop_first() =~= tail.push(name));
    assert(base.push(name)[0] == root());
    if tail.len() == 0 {
        assert(tail.push(name) =~= seq![name]);
        assert(joined(tail.push(name), root()) == name);
        assert(normal_path(left) =~= root() + Seq::<char>::empty());
        assert(normal_path(left) =~= seq!['/']);
    } else {
        assert(tail.push(name).drop_last() =~= tail);
        assert(normal_path(left + seq!['/'] + name) =~= root() + joined(tail, root()) + root()
            + name);
        assert(normal_path(left) != seq!['/']) by {
            if normal_path(left) == seq!['/'] {
                law_slashes_separate_components(left, name);
                assert(components(normal_path(left)).len() == 1);
            }
        }
    }
    assert(resolved(seq![root()]) =~= seq![root()]) by {
        assert(is_normal(seq![root()]));
        lemma_normal_stays(seq![root()]);
    }
    assert(seq![root()].drop_first() =~= Seq::<Seq<char>>::empty());
    assert(normal_path(seq!['/']) =~= seq!['/']);
}

proof fn lemma_resolved_from_root(path: Seq<char>)
    requires
        path.len() > 0,
        path[0] == '/',
    ensures
        components(path).len() > 0,
        components(path)[0] == root(),
        resolved(components(path)).len() > 0,
        resolved(components(path))[0] == root(),
{
    lemma_pieces_have_no_slash(path);
    lemma_named_parts(pieces(path));
    let parts = components(path);
    assert forall|i: int| 1 <= i < parts.len() implies (#[trigger] parts[i]).len() > 0
        && !parts[i].contains('/') by {
        assert(parts[i] == named(pieces(path))[i - 1]);
    }
    lemma_resolved_keeps_root(parts);
}

proof fn lemma_resolved_keeps_root(parts: Seq<Seq<char>>)
    requires
        parts.len() > 0,
        parts[0] == root(),
    ensures
        resolved(parts).len() > 0,
        resolved(parts)[0] == root(),
    decreases parts.len(),
{
    assert(root() != current() && root() != parent()) by {
        assert(root()[0] == '/');
        assert(current()[0] == '.');
        assert(parent().len() == 2);
    }
    if parts.len() > 1 {
        assert(parts.drop_last()[0] == root());
        lemma_resolved_keeps_root(parts.drop_last());
        let before = resolved(parts.drop_last());
        if before.len() == 1 {
            assert(before.last() == root());
        } else {
            assert(before.drop_last()[0] == before[0]);
        }
    }
}

/// A path starts at the root if and only if it begins with a slash.
pub proof fn law_absolute_paths_begin_with_a_slash(path: Seq<char>)
    ensures
        is_absolute(path) <==> seq!['/'].is_prefix_of(path),
{
    let slash = seq!['/'];
    if is_absolute(path) {
        assert(slash =~= path.subrange(0, 1));
    }
    if slash.is_prefix_of(path) {
        assert(path.subrange(0, 1)[0] == '/');
    }
}

} // verus!

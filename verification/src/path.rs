//! When two output paths are the same.

use vstd::prelude::*;
use vstd::string::StrSliceExecFns;

use crate::text::{fields, lemma_fields_nonempty, lemma_joined_back};

verus! {

/// The parts that count: not the empty ones, and not a `.` behind the first.
pub open spec fn kept(parts: Seq<Seq<char>>) -> Seq<Seq<char>>
    decreases parts.len(),
{
    if parts.len() == 0 {
        Seq::empty()
    } else {
        let before = kept(parts.drop_last());
        let last = parts.last();
        if last.len() == 0 || (last == seq!['.'] && parts.len() > 1) {
            before
        } else {
            before.push(last)
        }
    }
}

/// The components of a path. Repeated slashes and a `.` between them add nothing; a `.` at the
/// very beginning does.
pub open spec fn parts_of(path: Seq<char>) -> Seq<Seq<char>> {
    kept(fields(path, '/'))
}

/// The path begins with a slash.
pub open spec fn is_rooted(path: Seq<char>) -> bool {
    path.len() > 0 && path.first() == '/'
}

/// The path ends with a slash.
pub open spec fn ends_with_slash(path: Seq<char>) -> bool {
    path.len() > 0 && path.last() == '/'
}

/// Two paths are the same as they are written: nothing is looked up on disk, so that a `./` in
/// front or a slash behind sets two paths apart even where they lead to one file.
pub open spec fn is_same_path(a: Seq<char>, b: Seq<char>) -> bool {
    &&& is_rooted(a) == is_rooted(b)
    &&& parts_of(a) == parts_of(b)
    &&& ends_with_slash(a) == ends_with_slash(b)
}

/// What a list of strings says.
pub open spec fn texts(strings: Seq<String>) -> Seq<Seq<char>> {
    Seq::new(strings.len(), |i: int| strings[i]@)
}

/// Adds one more part, unless it counts for nothing.
fn keep_part(done: &mut Vec<String>, part: &str, leading: bool, Ghost(parts): Ghost<Seq<Seq<char>>>)
    requires
        parts.len() >= 1,
        parts.last() == part@,
        leading == (parts.len() == 1),
        texts(old(done)@) == kept(parts.drop_last()),
    ensures
        texts(final(done)@) == kept(parts),
{
    let len: usize = part.unicode_len();
    if len == 0 {
        return;
    }
    if len == 1 && part.get_char(0) == '.' {
        assert(part@ =~= seq!['.']);
        if !leading {
            return;
        }
    } else {
        assert(part@ != seq!['.']) by {
            if part@ == seq!['.'] {
                assert(part@[0] == '.');
            }
        }
    }
    done.push(part.to_owned());
    assert(texts(done@) =~= texts(old(done)@).push(part@));
}

/// Splits a path into its components.
pub fn components(path: &str) -> (r: Vec<String>)
    ensures
        texts(r@) == parts_of(path@),
{
    let n: usize = path.unicode_len();
    let mut done: Vec<String> = Vec::new();
    let mut start: usize = 0;
    let mut i: usize = 0;
    proof {
        assert(path@.take(0) =~= Seq::empty());
        assert(fields(path@.take(0), '/') =~= seq![Seq::<char>::empty()]);
        assert(fields(path@.take(0), '/').drop_last() =~= Seq::empty());
        assert(path@.subrange(0, 0) =~= Seq::empty());
        assert(texts(done@) =~= Seq::empty());
    }
    while i < n
        invariant
            start <= i <= n == path@.len(),
            fields(path@.take(i as int), '/').len() >= 1,
            fields(path@.take(i as int), '/').last() == path@.subrange(start as int, i as int),
            (start == 0) == (fields(path@.take(i as int), '/').len() == 1),
            texts(done@) == kept(fields(path@.take(i as int), '/').drop_last()),
        decreases n - i,
    {
        let ghost before: Seq<Seq<char>> = fields(path@.take(i as int), '/');
        let ghost after: Seq<Seq<char>> = fields(path@.take(i + 1), '/');
        proof {
            assert(path@.take(i + 1).drop_last() =~= path@.take(i as int));
            assert(path@.take(i + 1).last() == path@[i as int]);
        }
        if path.get_char(i) == '/' {
            keep_part(&mut done, path.substring_char(start, i), start == 0, Ghost(before));
            start = i + 1;
            proof {
                assert(after.drop_last() =~= before);
                assert(path@.subrange(i + 1, i + 1) =~= Seq::empty());
            }
        } else {
            proof {
                assert(after.drop_last() =~= before.drop_last());
                assert(path@.subrange(start as int, i + 1) =~= path@.subrange(
                    start as int,
                    i as int,
                ).push(path@[i as int]));
            }
        }
        i = i + 1;
    }
    assert(path@.take(n as int) =~= path@);
    keep_part(
        &mut done,
        path.substring_char(start, n),
        start == 0,
        Ghost(fields(path@, '/')),
    );
    done
}

/// Whether two lists say the same.
fn same_texts(a: &Vec<String>, b: &Vec<String>) -> (r: bool)
    ensures
        r == (texts(a@) == texts(b@)),
{
    let n: usize = a.len();
    if n != b.len() {
        assert(texts(a@).len() != texts(b@).len());
        return false;
    }
    let mut i: usize = 0;
    while i < n
        invariant
            i <= n == a@.len() == b@.len(),
            forall|k: int| 0 <= k < i ==> #[trigger] a@[k]@ == b@[k]@,
        decreases n - i,
    {
        if a[i] != b[i] {
            assert(texts(a@)[i as int] != texts(b@)[i as int]);
            return false;
        }
        i = i + 1;
    }
    assert(texts(a@) =~= texts(b@));
    true
}

/// Whether two paths are the same as they are written.
pub fn same_path(a: &str, b: &str) -> (r: bool)
    ensures
        r == is_same_path(a@, b@),
{
    let a_len: usize = a.unicode_len();
    let b_len: usize = b.unicode_len();
    let a_rooted: bool = a_len > 0 && a.get_char(0) == '/';
    let b_rooted: bool = b_len > 0 && b.get_char(0) == '/';
    let a_slash: bool = a_len > 0 && a.get_char(a_len - 1) == '/';
    let b_slash: bool = b_len > 0 && b.get_char(b_len - 1) == '/';
    a_rooted == b_rooted && a_slash == b_slash && same_texts(&components(a), &components(b))
}

/// Being the same path is an equivalence, and a path is the same as itself.
pub proof fn lemma_same_path_is_an_equivalence(a: Seq<char>, b: Seq<char>, c: Seq<char>)
    ensures
        is_same_path(a, a),
        is_same_path(a, b) ==> is_same_path(b, a),
        is_same_path(a, b) && is_same_path(b, c) ==> is_same_path(a, c),
{
}

/// Text behind a separator splits as it does alone.
proof fn lemma_fields_behind(head: Seq<char>, tail: Seq<char>, sep: char)
    ensures
        fields(head.push(sep) + tail, sep) == fields(head, sep) + fields(tail, sep),
    decreases tail.len(),
{
    let whole = head.push(sep) + tail;
    lemma_fields_nonempty(tail, sep);
    if tail.len() == 0 {
        assert(whole =~= head.push(sep));
        assert(whole.drop_last() =~= head);
        assert(fields(whole, sep) =~= fields(head, sep) + fields(tail, sep));
    } else {
        let front = tail.drop_last();
        lemma_fields_behind(head, front, sep);
        lemma_fields_nonempty(front, sep);
        assert(whole.drop_last() =~= head.push(sep) + front);
        assert(whole.last() == tail.last());
        assert(fields(whole, sep) =~= fields(head, sep) + fields(tail, sep));
    }
}

/// A part that counts at the beginning stays at the beginning.
proof fn lemma_first_part_stays(parts: Seq<Seq<char>>)
    requires
        parts.len() >= 1,
        parts.first().len() > 0,
    ensures
        kept(parts).len() >= 1,
        kept(parts).first() == parts.first(),
    decreases parts.len(),
{
    if parts.len() == 1 {
        assert(kept(parts.drop_last()) =~= Seq::empty());
    } else {
        lemma_first_part_stays(parts.drop_last());
    }
}

/// Behind a first part other than `.`, no `.` counts.
proof fn lemma_no_dot_counts(parts: Seq<Seq<char>>)
    requires
        parts.len() >= 1 ==> parts.first() != seq!['.'],
    ensures
        !kept(parts).contains(seq!['.']),
    decreases parts.len(),
{
    if parts.len() > 0 {
        let front = parts.drop_last();
        lemma_no_dot_counts(front);
        if kept(parts).contains(seq!['.']) {
            let i = choose|i: int| 0 <= i < kept(parts).len() && kept(parts)[i] == seq!['.'];
            if i < kept(front).len() {
                assert(kept(front)[i] == seq!['.']);
            }
        }
    }
}

/// A slash behind a path makes it another path.
pub proof fn lemma_slash_behind_distinguishes(path: Seq<char>)
    requires
        !ends_with_slash(path),
    ensures
        !is_same_path(path.push('/'), path),
{
}

/// A `./` in front of a path that does not begin with a `.` part makes it another path.
pub proof fn lemma_dot_in_front_distinguishes(path: Seq<char>)
    requires
        fields(path, '/').first() != seq!['.'],
    ensures
        !is_same_path(seq!['.'].push('/') + path, path),
{
    let dot = seq!['.'];
    let longer = dot.push('/') + path;
    lemma_fields_behind(dot, path, '/');
    assert(dot.drop_last() =~= Seq::empty());
    assert(fields(Seq::<char>::empty(), '/') =~= seq![Seq::<char>::empty()]);
    assert(Seq::<char>::empty().push('.') =~= dot);
    assert(fields(dot, '/') =~= seq![dot]);
    lemma_first_part_stays(fields(longer, '/'));
    lemma_no_dot_counts(fields(path, '/'));
    assert(parts_of(longer)[0] == dot);
    if parts_of(longer) == parts_of(path) {
        assert(parts_of(path)[0] == dot);
    }
}

/// The names in a path: its parts, but for the empty ones and those that are a `.`.
pub open spec fn names_in(parts: Seq<Seq<char>>) -> Seq<Seq<char>> {
    parts.filter(|part: Seq<char>| part.len() > 0 && part != seq!['.'])
}

/// The parts that count are the names, behind a `.` where that is the first part.
#[verifier::spinoff_prover]
proof fn lemma_kept_are_the_names(parts: Seq<Seq<char>>)
    requires
        parts.len() >= 1,
    ensures
        kept(parts) == if parts.first() == seq!['.'] {
            seq![seq!['.']] + names_in(parts)
        } else {
            names_in(parts)
        },
    decreases parts.len(),
{
    reveal(Seq::filter);
    let front = parts.drop_last();
    if parts.len() == 1 {
        assert(kept(front) =~= Seq::empty());
        assert(names_in(front) =~= Seq::empty());
        assert(parts.last() == parts.first());
        assert(kept(parts) =~= if parts.first() == seq!['.'] {
            seq![seq!['.']] + names_in(parts)
        } else {
            names_in(parts)
        });
    } else {
        lemma_kept_are_the_names(front);
        assert(front.first() == parts.first());
        assert(kept(parts) =~= if parts.first() == seq!['.'] {
            seq![seq!['.']] + names_in(parts)
        } else {
            names_in(parts)
        });
    }
}

/// Two paths are the same exactly where they have the same names in the same order, and both or
/// neither begin with a slash, begin with a `.` part, and end with a slash.
#[verifier::spinoff_prover]
pub proof fn lemma_same_path_has_the_same_names(a: Seq<char>, b: Seq<char>)
    ensures
        is_same_path(a, b) <==> {
            &&& names_in(fields(a, '/')) == names_in(fields(b, '/'))
            &&& (fields(a, '/')[0] == seq!['.']) == (fields(b, '/')[0] == seq!['.'])
            &&& (a.len() > 0 && a[0] == '/') == (b.len() > 0 && b[0] == '/')
            &&& (a.len() > 0 && a[a.len() - 1] == '/') == (b.len() > 0 && b[b.len() - 1] == '/')
        },
{
    let (x, y) = (fields(a, '/'), fields(b, '/'));
    lemma_fields_nonempty(a, '/');
    lemma_fields_nonempty(b, '/');
    lemma_kept_are_the_names(x);
    lemma_kept_are_the_names(y);
    let dot = seq!['.'];
    lemma_no_dot_is_a_name(x);
    lemma_no_dot_is_a_name(y);
    let (p, q) = (names_in(x), names_in(y));
    if parts_of(a) == parts_of(b) {
        if x.first() == dot && y.first() == dot {
            assert((seq![dot] + p).skip(1) =~= p);
            assert((seq![dot] + q).skip(1) =~= q);
        } else if x.first() == dot {
            assert((seq![dot] + p)[0] == dot);
            assert(q[0] == dot);
            assert(q.contains(dot));
        } else if y.first() == dot {
            assert((seq![dot] + q)[0] == dot);
            assert(p[0] == dot);
            assert(p.contains(dot));
        }
    }
}

proof fn lemma_no_dot_is_a_name(parts: Seq<Seq<char>>)
    ensures
        !names_in(parts).contains(seq!['.']),
        forall|i: int| 0 <= i < names_in(parts).len() ==> (#[trigger] names_in(parts)[i]).len() > 0,
    decreases parts.len(),
{
    reveal(Seq::filter);
    if parts.len() > 0 {
        let front = parts.drop_last();
        lemma_no_dot_is_a_name(front);
        let (before, after) = (names_in(front), names_in(parts));
        if after.contains(seq!['.']) {
            let i = choose|i: int| 0 <= i < after.len() && after[i] == seq!['.'];
            if i < before.len() {
                assert(before[i] == after[i]);
                assert(before.contains(seq!['.']));
            }
        }
        assert forall|i: int| 0 <= i < after.len() implies (#[trigger] after[i]).len() > 0 by {
            if i < before.len() {
                assert(after[i] == before[i]);
            }
        }
    }
}

/// A path that is written without empty parts and without `.` parts is the same as no other such
/// path: every part counts, wherever it stands.
#[verifier::spinoff_prover]
pub proof fn lemma_plain_paths_differ(a: Seq<char>, b: Seq<char>)
    requires
        forall|i: int|
            1 <= i < fields(a, '/').len() ==> (#[trigger] fields(a, '/')[i]).len() > 0 && fields(
                a,
                '/',
            )[i] != seq!['.'],
        forall|i: int|
            1 <= i < fields(b, '/').len() ==> (#[trigger] fields(b, '/')[i]).len() > 0 && fields(
                b,
                '/',
            )[i] != seq!['.'],
    ensures
        is_same_path(a, b) <==> a == b,
{
    if is_same_path(a, b) {
        let (x, y) = (fields(a, '/'), fields(b, '/'));
        lemma_same_path_has_the_same_names(a, b);
        lemma_joined_back(a, '/');
        lemma_joined_back(b, '/');
        lemma_first_field_is_empty(a);
        lemma_first_field_is_empty(b);
        lemma_names_of_plain_parts(x);
        lemma_names_of_plain_parts(y);
        if a.len() == 0 {
            assert(names_in(x) =~= Seq::empty());
        }
        if b.len() == 0 {
            assert(names_in(y) =~= Seq::empty());
        }
        lemma_plain_parts_are_equal(x, y);
    }
}

/// Parts with the same names are equal, where every part but perhaps the first is a name.
#[verifier::spinoff_prover]
proof fn lemma_plain_parts_are_equal(x: Seq<Seq<char>>, y: Seq<Seq<char>>)
    requires
        x.len() >= 1,
        y.len() >= 1,
        forall|i: int| 1 <= i < x.len() ==> (#[trigger] x[i]).len() > 0 && x[i] != seq!['.'],
        forall|i: int| 1 <= i < y.len() ==> (#[trigger] y[i]).len() > 0 && y[i] != seq!['.'],
        names_in(x) == names_in(y),
        (x[0] == seq!['.']) == (y[0] == seq!['.']),
        (x[0].len() == 0) == (y[0].len() == 0),
    ensures
        x =~= y,
{
    lemma_names_of_plain_parts(x);
    lemma_names_of_plain_parts(y);
    lemma_first_and_rest(x);
    lemma_first_and_rest(y);
    if x[0].len() == 0 {
        assert(x[0] =~= y[0]);
    }
}

proof fn lemma_first_and_rest(parts: Seq<Seq<char>>)
    requires
        parts.len() >= 1,
    ensures
        parts == seq![parts[0]] + parts.skip(1),
{
    assert(parts =~= seq![parts[0]] + parts.skip(1));
}

/// The first part is empty exactly where the path is empty or begins with a slash.
#[verifier::spinoff_prover]
proof fn lemma_first_field_is_empty(path: Seq<char>)
    ensures
        fields(path, '/').len() >= 1,
        fields(path, '/')[0].len() == 0 <==> path.len() == 0 || path[0] == '/',
    decreases path.len(),
{
    lemma_fields_nonempty(path, '/');
    if path.len() > 0 {
        let front = path.drop_last();
        lemma_first_field_is_empty(front);
        if front.len() > 0 {
            assert(front[0] == path[0]);
            let before = fields(front, '/');
            if before.len() == 1 && path.last() != '/' {
                assert(fields(path, '/')[0] == before.last().push(path.last()));
                if path[0] == '/' {
                    assert(before[0].len() == 0);
                    lemma_slash_makes_two_fields(front);
                }
            }
        } else {
            assert(fields(front, '/') =~= seq![Seq::<char>::empty()]);
        }
    }
}

proof fn lemma_slash_makes_two_fields(path: Seq<char>)
    requires
        path.len() > 0,
        path[0] == '/',
    ensures
        fields(path, '/').len() >= 2,
    decreases path.len(),
{
    let front = path.drop_last();
    lemma_fields_nonempty(front, '/');
    if front.len() > 0 {
        assert(front[0] == path[0]);
        lemma_slash_makes_two_fields(front);
    }
}

/// Of parts that are neither empty nor a `.`, but perhaps for the first, all are names but
/// perhaps the first.
#[verifier::spinoff_prover]
proof fn lemma_names_of_plain_parts(parts: Seq<Seq<char>>)
    requires
        parts.len() >= 1,
        forall|i: int|
            1 <= i < parts.len() ==> (#[trigger] parts[i]).len() > 0 && parts[i] != seq!['.'],
    ensures
        names_in(parts) == if parts[0].len() > 0 && parts[0] != seq!['.'] {
            seq![parts[0]] + parts.skip(1)
        } else {
            parts.skip(1)
        },
    decreases parts.len(),
{
    reveal(Seq::filter);
    let front = parts.drop_last();
    let want = if parts[0].len() > 0 && parts[0] != seq!['.'] {
        seq![parts[0]] + parts.skip(1)
    } else {
        parts.skip(1)
    };
    if parts.len() == 1 {
        assert(names_in(front) =~= Seq::empty());
        assert(names_in(parts) =~= want);
    } else {
        assert forall|i: int| 1 <= i < front.len() implies (#[trigger] front[i]).len() > 0
            && front[i] != seq!['.'] by {
            assert(front[i] == parts[i]);
        }
        lemma_names_of_plain_parts(front);
        assert(parts[parts.len() - 1].len() > 0);
        assert(names_in(parts) =~= want);
    }
}

/// Two paths whose parts are as many and differ in one place are not the same.
pub proof fn lemma_differing_part_distinguishes(a: Seq<char>, b: Seq<char>, i: int)
    requires
        parts_of(a).len() == parts_of(b).len(),
        0 <= i < parts_of(a).len(),
        parts_of(a)[i] != parts_of(b)[i],
    ensures
        !is_same_path(a, b),
{
}

} // verus!

//! Text helpers shared by the schema compiler and the table loader.
//!
//! Every string is reasoned about through its view, a `Seq<char>`. The
//! functions here move between `&str`, `String` and `Vec<char>` and provide
//! the few text operations the rest of the crate is built from.

use vstd::prelude::*;
use vstd::string::StringExecFns;

verus! {

/// `String::push` appends one character to the end of the string.
pub assume_specification[ std::string::String::push ](s: &mut std::string::String, c: char)
    ensures
        final(s)@ == old(s)@.push(c),
;

/// The views of a sequence of strings.
pub open spec fn views(v: Seq<String>) -> Seq<Seq<char>> {
    v.map_values(|s: String| s@)
}

/// `parts` written one after another with `sep` between neighbours.
pub open spec fn join_spec(parts: Seq<Seq<char>>, sep: Seq<char>) -> Seq<char>
    decreases parts.len(),
{
    if parts.len() == 0 {
        Seq::empty()
    } else if parts.len() == 1 {
        parts[0]
    } else {
        join_spec(parts.drop_last(), sep) + sep + parts.last()
    }
}

/// The characters of a string slice.
pub fn chars_of(s: &str) -> (r: Vec<char>)
    ensures
        r@ == s@,
{
    let mut out: Vec<char> = Vec::new();
    for c in it: s.chars()
        invariant
            out@ == it.seq().take(it.index()),
            it.seq() == s@,
    {
        out.push(c);
    }
    out
}

/// The string made of the characters `v[from..to]`.
pub fn text_of_range(v: &Vec<char>, from: usize, to: usize) -> (r: String)
    requires
        from <= to <= v.len(),
    ensures
        r@ == v@.subrange(from as int, to as int),
{
    let mut out = String::new();
    let mut i: usize = from;
    while i < to
        invariant
            from <= i <= to <= v.len(),
            out@ == v@.subrange(from as int, i as int),
        decreases to - i,
    {
        out.push(v[i]);
        assert(v@.subrange(from as int, i as int).push(v@[i as int]) == v@.subrange(
            from as int,
            i + 1,
        ));
        i += 1;
    }
    out
}

/// The string made of the characters of `v`.
pub fn text_of(v: &Vec<char>) -> (r: String)
    ensures
        r@ == v@,
{
    let r = text_of_range(v, 0, v.len());
    assert(v@.subrange(0, v.len() as int) == v@);
    r
}

/// Whether two string slices hold the same characters.
pub fn same_text(a: &str, b: &str) -> (r: bool)
    ensures
        r == (a@ == b@),
{
    let x = chars_of(a);
    let y = chars_of(b);
    if x.len() != y.len() {
        return false;
    }
    let mut i: usize = 0;
    while i < x.len()
        invariant
            i <= x.len(),
            x.len() == y.len(),
            x@ == a@,
            y@ == b@,
            forall|k: int| 0 <= k < i ==> x@[k] == y@[k],
        decreases x.len() - i,
    {
        if x[i] != y[i] {
            return false;
        }
        i += 1;
    }
    assert(x@ =~= y@);
    true
}

/// An owned copy of every string of `v`, in order.
pub fn copy_strings(v: &[String]) -> (r: Vec<String>)
    ensures
        views(r@) == views(v@),
{
    let mut out: Vec<String> = Vec::new();
    let mut i: usize = 0;
    while i < v.len()
        invariant
            i <= v.len(),
            out.len() == i,
            forall|k: int| 0 <= k < i ==> out@[k]@ == v@[k]@,
        decreases v.len() - i,
    {
        out.push(v[i].clone());
        i += 1;
    }
    assert(views(out@) =~= views(v@));
    out
}

/// Joins `parts` with `sep` between neighbours.
pub fn join(parts: &[String], sep: &str) -> (r: String)
    ensures
        r@ == join_spec(views(parts@), sep@),
{
    let mut out = String::new();
    let mut i: usize = 0;
    while i < parts.len()
        invariant
            i <= parts.len(),
            out@ == join_spec(views(parts@).take(i as int), sep@),
        decreases parts.len() - i,
    {
        let ghost before = views(parts@).take(i as int);
        let ghost after = views(parts@).take(i + 1);
        assert(after.drop_last() == before);
        assert(after.last() == parts@[i as int]@);
        if i > 0 {
            out.append(sep);
        }
        out.append(parts[i].as_str());
        assert(out@ == join_spec(after, sep@)) by {
            if i == 0 {
                assert(before.len() == 0);
                assert(out@ =~= parts@[0]@);
            }
        }
        i += 1;
    }
    assert(views(parts@).take(parts.len() as int) == views(parts@));
    out
}

/// Whether a character is whitespace: whether it has the Unicode property
/// White_Space. These are the controls from tab to carriage return, the
/// space, the next-line control, the no-break space, the Ogham space mark,
/// the spaces from en quad to hair space, the line and the paragraph
/// separator, the narrow no-break space, the medium mathematical space and
/// the ideographic space.
pub open spec fn is_whitespace_char(c: char) -> bool {
    let u = c as u32;
    ||| 0x9 <= u <= 0xd
    ||| u == 0x20
    ||| u == 0x85
    ||| u == 0xa0
    ||| u == 0x1680
    ||| 0x2000 <= u <= 0x200a
    ||| u == 0x2028
    ||| u == 0x2029
    ||| u == 0x202f
    ||| u == 0x205f
    ||| u == 0x3000
}

/// Whether a character is whitespace.
pub fn is_whitespace(c: char) -> (r: bool)
    ensures
        r == is_whitespace_char(c),
{
    let u: u32 = c as u32;
    (0x9 <= u && u <= 0xd) || u == 0x20 || u == 0x85 || u == 0xa0 || u == 0x1680 || (0x2000 <= u
        && u <= 0x200a) || u == 0x2028 || u == 0x2029 || u == 0x202f || u == 0x205f || u == 0x3000
}

/// `s` without the whitespace it begins with.
pub open spec fn trim_start_spec(s: Seq<char>) -> Seq<char>
    decreases s.len(),
{
    if s.len() > 0 && is_whitespace_char(s[0]) {
        trim_start_spec(s.skip(1))
    } else {
        s
    }
}

/// `s` without the whitespace it ends with.
pub open spec fn trim_end_spec(s: Seq<char>) -> Seq<char>
    decreases s.len(),
{
    if s.len() > 0 && is_whitespace_char(s.last()) {
        trim_end_spec(s.drop_last())
    } else {
        s
    }
}

/// `s` without the whitespace around it.
pub open spec fn trim_spec(s: Seq<char>) -> Seq<char> {
    trim_end_spec(trim_start_spec(s))
}

/// How many more parentheses are opened than closed in `s`.
pub open spec fn paren_depth(s: Seq<char>) -> int
    decreases s.len(),
{
    if s.len() == 0 {
        0
    } else if s.last() == '(' {
        paren_depth(s.drop_last()) + 1
    } else if s.last() == ')' {
        paren_depth(s.drop_last()) - 1
    } else {
        paren_depth(s.drop_last())
    }
}

/// The pieces that the commas of `s` part it into; there is always one piece
/// more than there are parting commas. With `nested` set, only the commas
/// outside all parentheses part the text.
pub open spec fn split_spec(s: Seq<char>, nested: bool) -> Seq<Seq<char>>
    decreases s.len(),
{
    if s.len() == 0 {
        seq![Seq::empty()]
    } else {
        let before = split_spec(s.drop_last(), nested);
        if s.last() == ',' && (!nested || paren_depth(s.drop_last()) == 0) {
            before.push(Seq::empty())
        } else {
            before.drop_last().push(before.last().push(s.last()))
        }
    }
}

/// The views of a sequence of character vectors.
pub open spec fn pieces_view(v: Seq<Vec<char>>) -> Seq<Seq<char>> {
    v.map_values(|p: Vec<char>| p@)
}

/// The characters of `v` without the whitespace around them.
pub fn trim(v: &Vec<char>) -> (r: Vec<char>)
    ensures
        r@ == trim_spec(v@),
{
    let mut from: usize = 0;
    assert(v@.skip(0) == v@);
    while from < v.len() && is_whitespace(v[from])
        invariant
            from <= v.len(),
            trim_start_spec(v@) == trim_start_spec(v@.skip(from as int)),
        decreases v.len() - from,
    {
        assert(v@.skip(from as int).skip(1) == v@.skip(from + 1));
        from += 1;
    }
    let ghost front = v@.skip(from as int);
    assert(trim_start_spec(v@) == front);
    let mut to: usize = v.len();
    assert(front == v@.subrange(from as int, to as int));
    while to > from && is_whitespace(v[to - 1])
        invariant
            from <= to <= v.len(),
            front == v@.skip(from as int),
            trim_end_spec(front) == trim_end_spec(v@.subrange(from as int, to as int)),
        decreases to,
    {
        assert(v@.subrange(from as int, to as int).drop_last() == v@.subrange(
            from as int,
            to - 1,
        ));
        to -= 1;
    }
    let mut out: Vec<char> = Vec::new();
    let mut i: usize = from;
    while i < to
        invariant
            from <= i <= to <= v.len(),
            out@ == v@.subrange(from as int, i as int),
        decreases to - i,
    {
        out.push(v[i]);
        assert(v@.subrange(from as int, i as int).push(v@[i as int]) == v@.subrange(
            from as int,
            i + 1,
        ));
        i += 1;
    }
    out
}

/// Parts `v` at its commas; with `nested` set, at the commas outside all
/// parentheses only.
pub fn split(v: &Vec<char>, nested: bool) -> (r: Vec<Vec<char>>)
    ensures
        pieces_view(r@) == split_spec(v@, nested),
{
    let mut done: Vec<Vec<char>> = Vec::new();
    let mut current: Vec<char> = Vec::new();
    let mut depth: i128 = 0;
    let mut i: usize = 0;
    assert(pieces_view(done@).push(current@) == split_spec(v@.take(0), nested));
    while i < v.len()
        invariant
            i <= v.len(),
            depth == paren_depth(v@.take(i as int)),
            -(i as int) <= depth <= i as int,
            pieces_view(done@).push(current@) == split_spec(v@.take(i as int), nested),
        decreases v.len() - i,
    {
        let c = v[i];
        proof {
            assert(v@.take(i + 1).drop_last() == v@.take(i as int));
            assert(v@.take(i + 1).last() == c);
        }
        let ghost before = pieces_view(done@).push(current@);
        if c == ',' && (!nested || depth == 0) {
            let ghost parts = pieces_view(done@);
            done.push(current);
            current = Vec::new();
            assert(pieces_view(done@) == before);
        } else {
            let ghost parts = pieces_view(done@);
            let ghost piece = current@;
            current.push(c);
            assert(before.drop_last() == parts);
            assert(before.last() == piece);
        }
        if c == '(' {
            depth += 1;
        } else if c == ')' {
            depth -= 1;
        }
        i += 1;
    }
    assert(v@.take(v.len() as int) == v@);
    let ghost parts = pieces_view(done@);
    done.push(current);
    assert(pieces_view(done@) == parts.push(current@));
    done
}

/// Every segment holds a character, and none holds a colon.
pub open spec fn plain_segments(parts: Seq<Seq<char>>) -> bool {
    forall|i: int|
        0 <= i < parts.len() ==> (#[trigger] parts[i]).len() > 0 && !parts[i].contains(':')
}

/// What stands before the last segment in the segments joined by `::`.
pub open spec fn joined_front(parts: Seq<Seq<char>>) -> Seq<char> {
    if parts.len() <= 1 {
        Seq::empty()
    } else {
        join_spec(parts.drop_last(), "::"@) + "::"@
    }
}

/// A text is cut in one way only into a front that is empty or ends in a
/// colon and a rest without a colon.
proof fn lemma_cut_at_last_colon(
    front: Seq<char>,
    rest: Seq<char>,
    other_front: Seq<char>,
    other_rest: Seq<char>,
)
    requires
        front + rest == other_front + other_rest,
        !rest.contains(':'),
        !other_rest.contains(':'),
        front.len() == 0 || front.last() == ':',
        other_front.len() == 0 || other_front.last() == ':',
    ensures
        front == other_front,
        rest == other_rest,
{
    let s = front + rest;
    assert(s.len() == front.len() + rest.len());
    assert(s.len() == other_front.len() + other_rest.len());
    if front.len() > other_front.len() {
        let at = front.len() - 1;
        assert(s[at] == front[at]);
        assert((other_front + other_rest)[at] == other_rest[at - other_front.len()]);
        assert(other_rest.contains(':'));
    }
    if other_front.len() > front.len() {
        let at = other_front.len() - 1;
        assert((other_front + other_rest)[at] == other_front[at]);
        assert(s[at] == rest[at - front.len()]);
        assert(rest.contains(':'));
    }
    assert(front =~= other_front) by {
        assert forall|i: int| 0 <= i < front.len() implies front[i] == other_front[i] by {
            assert(s[i] == front[i]);
            assert((other_front + other_rest)[i] == other_front[i]);
        }
    }
    assert(rest =~= other_rest) by {
        assert forall|i: int| 0 <= i < rest.len() implies rest[i] == other_rest[i] by {
            assert(s[front.len() + i] == rest[i]);
            assert((other_front + other_rest)[other_front.len() + i] == other_rest[i]);
        }
    }
}

/// Segments without colons are told apart by their joining with `::`.
pub proof fn lemma_join_injective(a: Seq<Seq<char>>, b: Seq<Seq<char>>)
    requires
        plain_segments(a),
        plain_segments(b),
        join_spec(a, "::"@) == join_spec(b, "::"@),
    ensures
        a == b,
    decreases a.len(),
{
    reveal_strlit("::");
    let sep = "::"@;
    assert(sep.len() == 2 && sep[1] == ':');
    if a.len() == 0 || b.len() == 0 {
        if a.len() > 0 {
            assert(join_spec(a, sep) == joined_front(a) + a.last());
            assert(a[a.len() - 1].len() > 0);
        }
        if b.len() > 0 {
            assert(join_spec(b, sep) == joined_front(b) + b.last());
            assert(b[b.len() - 1].len() > 0);
        }
        assert(a =~= b);
    } else {
        let pa = joined_front(a);
        let pb = joined_front(b);
        assert(join_spec(a, sep) =~= pa + a.last());
        assert(join_spec(b, sep) =~= pb + b.last());
        assert(pa.len() == 0 || pa.last() == ':') by {
            if a.len() > 1 {
                assert(pa[pa.len() - 1] == sep[1]);
            }
        }
        assert(pb.len() == 0 || pb.last() == ':') by {
            if b.len() > 1 {
                assert(pb[pb.len() - 1] == sep[1]);
            }
        }
        assert(!a[a.len() - 1].contains(':'));
        assert(!b[b.len() - 1].contains(':'));
        lemma_cut_at_last_colon(pa, a.last(), pb, b.last());
        if a.len() == 1 {
            assert(b.len() == 1);
            assert(a =~= b);
        } else {
            assert(b.len() > 1);
            let ja = join_spec(a.drop_last(), sep);
            let jb = join_spec(b.drop_last(), sep);
            assert(ja =~= pa.take(pa.len() - 2));
            assert(jb =~= pb.take(pb.len() - 2));
            assert(plain_segments(a.drop_last())) by {
                assert forall|i: int| 0 <= i < a.drop_last().len() implies (
                #[trigger] a.drop_last()[i]).len() > 0 && !a.drop_last()[i].contains(':') by {
                    assert(a.drop_last()[i] == a[i]);
                }
            }
            assert(plain_segments(b.drop_last())) by {
                assert forall|i: int| 0 <= i < b.drop_last().len() implies (
                #[trigger] b.drop_last()[i]).len() > 0 && !b.drop_last()[i].contains(':') by {
                    assert(b.drop_last()[i] == b[i]);
                }
            }
            lemma_join_injective(a.drop_last(), b.drop_last());
            assert(a =~= a.drop_last().push(a.last()));
            assert(b =~= b.drop_last().push(b.last()));
        }
    }
}

} // verus!

//! Small tools for text: numerals, repetition, comparison, path segments.

use vstd::prelude::*;
use vstd::string::*;
use vstd::utf8::*;

verus! {

/// `unit` written `n` times in a row.
pub open spec fn repeated(unit: Seq<char>, n: nat) -> Seq<char>
    decreases n,
{
    if n == 0 {
        Seq::empty()
    } else {
        repeated(unit, (n - 1) as nat) + unit
    }
}

/// The decimal digit that stands for `d`, for `d` below ten.
pub open spec fn digit_char(d: nat) -> char {
    if d == 0 {
        '0'
    } else if d == 1 {
        '1'
    } else if d == 2 {
        '2'
    } else if d == 3 {
        '3'
    } else if d == 4 {
        '4'
    } else if d == 5 {
        '5'
    } else if d == 6 {
        '6'
    } else if d == 7 {
        '7'
    } else if d == 8 {
        '8'
    } else {
        '9'
    }
}

/// The decimal numeral of `n`, without leading zeros; `"0"` for zero.
pub open spec fn decimal(n: nat) -> Seq<char>
    decreases n,
{
    if n < 10 {
        seq![digit_char(n)]
    } else {
        decimal(n / 10) + seq![digit_char(n % 10)]
    }
}

/// The number of digits in the decimal numeral of `n`.
pub open spec fn digit_count(n: nat) -> nat
    decreases n,
{
    if n < 10 {
        1
    } else {
        digit_count(n / 10) + 1
    }
}

/// The numeral of `n` has `digit_count(n)` characters.
pub proof fn lemma_decimal_len(n: nat)
    ensures
        decimal(n).len() == digit_count(n),
    decreases n,
{
    if n >= 10 {
        lemma_decimal_len(n / 10);
    }
}

/// Writes `unit` `n` times in a row.
pub fn repeat_str(unit: &str, n: usize) -> (r: String)
    ensures
        r@ == repeated(unit@, n as nat),
{
    let mut r = String::new();
    let mut i: usize = 0;
    while i < n
        invariant
            i <= n,
            r@ == repeated(unit@, i as nat),
        decreases n - i,
    {
        r.append(unit);
        i = i + 1;
    }
    r
}

fn digit_str(d: usize) -> (r: &'static str)
    requires
        d < 10,
    ensures
        r@ == seq![digit_char(d as nat)],
{
    proof {
        reveal_strlit("0");
        reveal_strlit("1");
        reveal_strlit("2");
        reveal_strlit("3");
        reveal_strlit("4");
        reveal_strlit("5");
        reveal_strlit("6");
        reveal_strlit("7");
        reveal_strlit("8");
        reveal_strlit("9");
    }
    let r = if d == 0 {
        "0"
    } else if d == 1 {
        "1"
    } else if d == 2 {
        "2"
    } else if d == 3 {
        "3"
    } else if d == 4 {
        "4"
    } else if d == 5 {
        "5"
    } else if d == 6 {
        "6"
    } else if d == 7 {
        "7"
    } else if d == 8 {
        "8"
    } else {
        "9"
    };
    assert(r@ =~= seq![digit_char(d as nat)]);
    r
}

/// The decimal numeral of `n`.
pub fn usize_to_string(n: usize) -> (r: String)
    ensures
        r@ == decimal(n as nat),
    decreases n,
{
    if n < 10 {
        String::from_str(digit_str(n))
    } else {
        let mut r = usize_to_string(n / 10);
        r.append(digit_str(n % 10));
        r
    }
}

/// The decimal numeral of `n`.
pub fn u64_to_string(n: u64) -> (r: String)
    ensures
        r@ == decimal(n as nat),
    decreases n,
{
    if n < 10 {
        String::from_str(digit_str(n as usize))
    } else {
        let mut r = u64_to_string(n / 10);
        r.append(digit_str((n % 10) as usize));
        r
    }
}

/// Whether two pieces of text are the same.
pub fn str_equal(a: &str, b: &str) -> (r: bool)
    ensures
        r == (a@ == b@),
{
    let x = a.as_bytes();
    let y = b.as_bytes();
    proof {
        encode_utf8_decode_utf8(a@);
        encode_utf8_decode_utf8(b@);
    }
    if x.len() != y.len() {
        return false;
    }
    let mut i: usize = 0;
    while i < x.len()
        invariant
            i <= x.len(),
            x@.len() == y@.len(),
            x@ == a.spec_bytes(),
            y@ == b.spec_bytes(),
            forall|j: int| 0 <= j < i ==> x@[j] == y@[j],
        decreases x.len() - i,
    {
        if x[i] != y[i] {
            return false;
        }
        i = i + 1;
    }
    assert(x@ =~= y@);
    true
}

/// Whether `text` begins with a full stop.
pub fn starts_with_dot(text: &str) -> (r: bool)
    ensures
        r == (text@.len() > 0 && text@[0] == '.'),
{
    !text.is_empty() && text.get_char(0) == '.'
}

/// The characters of a text, one by one.
pub fn chars_of(s: &str) -> (r: Vec<char>)
    ensures
        r@ == s@,
{
    let mut r: Vec<char> = Vec::new();
    for c in it: s.chars()
        invariant
            r@ == it.seq().subrange(0, it.index() as int),
            it.seq() == s@,
    {
        r.push(c);
    }
    r
}

/// True when `text` begins with `prefix`.
pub open spec fn has_prefix(text: Seq<char>, prefix: Seq<char>) -> bool {
    prefix.len() <= text.len() && text.subrange(0, prefix.len() as int) == prefix
}

/// True when `text` ends with `suffix`.
pub open spec fn has_suffix(text: Seq<char>, suffix: Seq<char>) -> bool {
    suffix.len() <= text.len() && text.subrange(text.len() - suffix.len(), text.len() as int)
        == suffix
}

/// Whether the characters `text` begin with the characters `prefix`.
pub fn chars_start_with(text: &Vec<char>, prefix: &Vec<char>) -> (r: bool)
    ensures
        r == has_prefix(text@, prefix@),
{
    if prefix.len() > text.len() {
        return false;
    }
    let mut i: usize = 0;
    while i < prefix.len()
        invariant
            i <= prefix.len() <= text.len(),
            forall|j: int| 0 <= j < i ==> text@[j] == prefix@[j],
        decreases prefix.len() - i,
    {
        if text[i] != prefix[i] {
            assert(text@.subrange(0, prefix@.len() as int)[i as int] == text@[i as int]);
            return false;
        }
        i = i + 1;
    }
    assert(text@.subrange(0, prefix@.len() as int) =~= prefix@);
    true
}

/// The runs of characters between the slashes of a path, empty runs left
/// out. `start` is where the run at hand began and `pos` how far the path was
/// read.
pub open spec fn segments_from(path: Seq<char>, start: int, pos: int) -> Seq<Seq<char>>
    decreases path.len() - pos,
{
    if pos >= path.len() {
        if start < path.len() {
            seq![path.subrange(start, path.len() as int)]
        } else {
            Seq::empty()
        }
    } else if path[pos] == '/' {
        if start < pos {
            seq![path.subrange(start, pos)] + segments_from(path, pos + 1, pos + 1)
        } else {
            segments_from(path, pos + 1, pos + 1)
        }
    } else {
        segments_from(path, start, pos + 1)
    }
}

/// The segments of a path: what stands between its slashes, empty pieces
/// left out.
pub open spec fn segments(path: Seq<char>) -> Seq<Seq<char>> {
    segments_from(path, 0, 0)
}

/// The views of a list of strings.
pub open spec fn string_views(list: Seq<String>) -> Seq<Seq<char>> {
    list.map_values(|s: String| s@)
}

/// Splits the part of `path` that begins at character `from` into its
/// segments.
pub fn split_segments(path: &str, from: usize) -> (r: Vec<String>)
    requires
        from <= path@.len(),
    ensures
        string_views(r@) == segments(path@.subrange(from as int, path@.len() as int)),
{
    let all = chars_of(path);
    let n = all.len();
    let ghost tail = path@.subrange(from as int, n as int);
    let mut r: Vec<String> = Vec::new();
    let mut start: usize = from;
    let mut pos: usize = from;
    assert(string_views(r@) =~= Seq::<Seq<char>>::empty());
    while pos < n
        invariant
            from <= start <= pos <= n,
            n == path@.len(),
            all@ == path@,
            tail == path@.subrange(from as int, n as int),
            string_views(r@) + segments_from(tail, start - from, pos - from) == segments(tail),
        decreases n - pos,
    {
        assert(tail[pos - from] == all@[pos as int]);
        if all[pos] == '/' {
            if start < pos {
                let piece = path.substring_char(start, pos);
                let ghost before = r@;
                r.push(String::from_str(piece));
                assert(piece@ =~= tail.subrange(start - from, pos - from));
                assert(string_views(r@) =~= string_views(before).push(piece@));
                assert(string_views(r@) + segments_from(tail, pos + 1 - from, pos + 1 - from)
                    =~= string_views(before) + segments_from(tail, start - from, pos - from));
            }
            start = pos + 1;
        }
        pos = pos + 1;
    }
    if start < n {
        let piece = path.substring_char(start, n);
        let ghost before = r@;
        r.push(String::from_str(piece));
        assert(piece@ =~= tail.subrange(start - from, n - from));
        assert(string_views(r@) =~= string_views(before).push(piece@));
        assert(string_views(r@) =~= string_views(before) + segments_from(
            tail,
            start - from,
            pos - from,
        ));
    } else {
        assert(string_views(r@) =~= string_views(r@) + segments_from(
            tail,
            start - from,
            pos - from,
        ));
    }
    r
}

/// The number of bytes that `text` takes.
pub open spec fn byte_len(text: Seq<char>) -> nat {
    encode_utf8(text).len()
}

/// Counts the bytes of a text.
pub fn byte_length(text: &str) -> (n: usize)
    ensures
        n == byte_len(text@),
{
    text.as_bytes().len()
}

/// Whether `text` holds no slash from `from` up to `to`.
pub open spec fn slash_free(text: Seq<char>, from: int, to: int) -> bool {
    forall|i: int| from <= i < to ==> text[i] != '/'
}

proof fn lemma_segments_tail(path: Seq<char>, start: int, pos: int)
    requires
        0 <= start <= pos <= path.len(),
        slash_free(path, pos, path.len() as int),
    ensures
        segments_from(path, start, pos) == if start < path.len() {
            seq![path.subrange(start, path.len() as int)]
        } else {
            Seq::<Seq<char>>::empty()
        },
    decreases path.len() - pos,
{
    if pos < path.len() {
        lemma_segments_tail(path, start, pos + 1);
    }
}

proof fn lemma_segments_last(path: Seq<char>, start: int, pos: int, cut: int)
    requires
        0 <= start <= pos < cut < path.len(),
        path[cut - 1] == '/',
        slash_free(path, cut, path.len() as int),
    ensures
        segments_from(path, start, pos).len() > 0,
        segments_from(path, start, pos).last() == path.subrange(cut, path.len() as int),
    decreases cut - pos,
{
    lemma_segments_tail(path, cut, cut);
    let tail = segments_from(path, cut, cut);
    if pos == cut - 1 {
        if start < pos {
            assert((seq![path.subrange(start, pos)] + tail).last() == tail.last());
        }
    } else if path[pos] == '/' {
        lemma_segments_last(path, pos + 1, pos + 1, cut);
        if start < pos {
            let rest = segments_from(path, pos + 1, pos + 1);
            assert((seq![path.subrange(start, pos)] + rest).last() == rest.last());
        }
    } else {
        lemma_segments_last(path, start, pos + 1, cut);
    }
}

/// The last segment of a path that ends in a slash and a name is the name.
pub proof fn lemma_last_segment(front: Seq<char>, name: Seq<char>)
    requires
        front.len() > 0,
        front.last() == '/',
        name.len() > 0,
        slash_free(name, 0, name.len() as int),
    ensures
        segments(front + name).len() > 0,
        segments(front + name).last() == name,
{
    let path = front + name;
    let cut = front.len() as int;
    assert(path[cut - 1] == front.last());
    assert forall|i: int| cut <= i < path.len() implies path[i] != '/' by {
        assert(path[i] == name[i - cut]);
    }
    lemma_segments_last(path, 0, 0, cut);
    assert(path.subrange(cut, path.len() as int) =~= name);
}

proof fn lemma_segments_clean(path: Seq<char>, start: int, pos: int, i: int)
    requires
        0 <= start <= pos <= path.len(),
        slash_free(path, start, pos),
        0 <= i < segments_from(path, start, pos).len(),
    ensures
        segments_from(path, start, pos)[i].len() > 0,
        slash_free(segments_from(path, start, pos)[i], 0, segments_from(path, start, pos)[i].len() as int),
    decreases path.len() - pos,
{
    if pos >= path.len() {
    } else if path[pos] == '/' {
        if start < pos {
            if i > 0 {
                lemma_segments_clean(path, pos + 1, pos + 1, i - 1);
            }
        } else {
            lemma_segments_clean(path, pos + 1, pos + 1, i);
        }
    } else {
        lemma_segments_clean(path, start, pos + 1, i);
    }
}

/// No segment of a path is empty, and none holds a slash.
pub proof fn lemma_segments_are_names(path: Seq<char>, i: int)
    requires
        0 <= i < segments(path).len(),
    ensures
        segments(path)[i].len() > 0,
        slash_free(segments(path)[i], 0, segments(path)[i].len() as int),
{
    lemma_segments_clean(path, 0, 0, i);
}

/// Whether `text` ends in a slash.
pub open spec fn ends_in_slash(text: Seq<char>) -> bool {
    text.len() > 0 && text.last() == '/'
}

/// Tells whether a text ends in a slash.
pub fn has_final_slash(text: &str) -> (r: bool)
    ensures
        r == ends_in_slash(text@),
{
    let all = chars_of(text);
    all.len() > 0 && all[all.len() - 1] == '/'
}

} // verus!

//! The text form of a list of grid coordinates, as the walls save file
//! holds it: `x,y` pairs written in decimal, each followed by a space.

use vstd::prelude::*;
use crate::grid_coord::GridCoord;
use crate::text::append_u32_decimal;
use crate::text::dec_digits;
use crate::text::dec_value;
use crate::text::is_digits;
use crate::text::lemma_dec_digits_are_digits;
use crate::text::lemma_dec_digits_len;
use crate::text::lemma_dec_value_of_digits;
use crate::text::parse_u32_range;
use crate::text::push_char;

verus! {

/// The characters that separate the pairs.
pub open spec fn is_ws(c: char) -> bool {
    c == ' ' || c == '\t' || c == '\n' || c == '\r'
}

/// The separator predicate as a value, so that the segment machinery
/// below can take it as a parameter.
pub open spec fn ws_pred() -> spec_fn(char) -> bool {
    |c: char| is_ws(c)
}

/// The predicate that marks the comma between the two numbers of a pair.
pub open spec fn comma_pred() -> spec_fn(char) -> bool {
    |c: char| c == ','
}

/// Whether `s` holds a separator character.
pub open spec fn has_sep(s: Seq<char>, sep: spec_fn(char) -> bool) -> bool {
    exists|i: int| 0 <= i < s.len() && sep(#[trigger] s[i])
}

/// The index of the first separator of `s`; meaningful only when there
/// is one.
pub open spec fn first_sep(s: Seq<char>, sep: spec_fn(char) -> bool) -> int
    decreases s.len(),
{
    if s.len() == 0 {
        0
    } else if sep(s[0]) {
        0
    } else {
        1 + first_sep(s.skip(1), sep)
    }
}

pub proof fn lemma_first_sep(s: Seq<char>, sep: spec_fn(char) -> bool)
    requires
        has_sep(s, sep),
    ensures
        0 <= first_sep(s, sep) < s.len(),
        sep(s[first_sep(s, sep)]),
        forall|k: int| 0 <= k < first_sep(s, sep) ==> !sep(#[trigger] s[k]),
    decreases s.len(),
{
    if !sep(s[0]) {
        let i = choose|i: int| 0 <= i < s.len() && sep(#[trigger] s[i]);
        assert(sep(s.skip(1)[i - 1]));
        lemma_first_sep(s.skip(1), sep);
        assert forall|k: int| 0 <= k < first_sep(s, sep) implies !sep(#[trigger] s[k]) by {
            if k > 0 {
                assert(!sep(s.skip(1)[k - 1]));
            }
        }
    }
}

/// The first separator is the only index whose prefix is separator-free.
pub proof fn lemma_first_sep_unique(s: Seq<char>, sep: spec_fn(char) -> bool, j: int)
    requires
        0 <= j < s.len(),
        sep(s[j]),
        forall|k: int| 0 <= k < j ==> !sep(#[trigger] s[k]),
    ensures
        first_sep(s, sep) == j,
    decreases s.len(),
{
    if j > 0 {
        assert(sep(s.skip(1)[j - 1]));
        assert forall|k: int| 0 <= k < j - 1 implies !sep(#[trigger] s.skip(1)[k]) by {
            assert(s.skip(1)[k] == s[k + 1]);
        }
        lemma_first_sep_unique(s.skip(1), sep, j - 1);
    }
}

/// The runs of `s` between separators, in order, empties included:
/// every separator closes a run, and the characters after the last
/// separator form one more.
pub open spec fn segments(s: Seq<char>, sep: spec_fn(char) -> bool) -> Seq<Seq<char>>
    decreases s.len(),
{
    if !has_sep(s, sep) {
        seq![s]
    } else {
        let i = first_sep(s, sep);
        if 0 <= i < s.len() {
            seq![s.take(i)] + segments(s.skip(i + 1), sep)
        } else {
            seq![s]
        }
    }
}

/// The non-empty runs between whitespace: the tokens of the save file.
pub open spec fn ws_tokens(s: Seq<char>) -> Seq<Seq<char>> {
    segments(s, ws_pred()).filter(|t: Seq<char>| t.len() > 0)
}

/// Splitting at the first separator: a separator-free prefix becomes
/// the first run, and the rest is split on its own.
pub proof fn lemma_segments_split(
    a: Seq<char>,
    c: char,
    b: Seq<char>,
    sep: spec_fn(char) -> bool,
)
    requires
        !has_sep(a, sep),
        sep(c),
    ensures
        segments(a + seq![c] + b, sep) == seq![a] + segments(b, sep),
{
    let s = a + seq![c] + b;
    assert(s[a.len() as int] == c);
    assert forall|k: int| 0 <= k < a.len() implies !sep(#[trigger] s[k]) by {
        assert(s[k] == a[k]);
    }
    lemma_first_sep_unique(s, sep, a.len() as int);
    assert(s.take(a.len() as int) =~= a);
    assert(s.skip(a.len() as int + 1) =~= b);
}

/// A string without a separator is one single run.
pub proof fn lemma_segments_whole(s: Seq<char>, sep: spec_fn(char) -> bool)
    requires
        !has_sep(s, sep),
    ensures
        segments(s, sep) == seq![s],
{
}

/// Filtering a one-run sequence.
proof fn lemma_filter_singleton_run(l: Seq<char>)
    ensures
        l.len() > 0 ==> seq![l].filter(|x: Seq<char>| x.len() > 0) == seq![l],
        l.len() == 0 ==> seq![l].filter(|x: Seq<char>| x.len() > 0) == Seq::<Seq<char>>::empty(),
{
    reveal(Seq::filter);
    let pred = |x: Seq<char>| x.len() > 0;
    assert(seq![l].drop_last() =~= Seq::<Seq<char>>::empty());
    assert(Seq::<Seq<char>>::empty().filter(pred) == Seq::<Seq<char>>::empty());
    assert(seq![l].last() == l);
    if l.len() > 0 {
        assert(seq![l].filter(pred) =~= seq![l]);
    }
}

/// Whether a token is a well-formed pair: two runs of digits around the
/// first comma, each fitting in a `u32`.
pub open spec fn valid_token(t: Seq<char>) -> bool {
    &&& has_sep(t, comma_pred())
    &&& is_digits(t.take(first_sep(t, comma_pred())))
    &&& is_digits(t.skip(first_sep(t, comma_pred()) + 1))
    &&& dec_value(t.take(first_sep(t, comma_pred()))) <= u32::MAX
    &&& dec_value(t.skip(first_sep(t, comma_pred()) + 1)) <= u32::MAX
}

/// The coordinate a well-formed token names.
pub open spec fn token_coord(t: Seq<char>) -> GridCoord {
    GridCoord {
        x: dec_value(t.take(first_sep(t, comma_pred()))) as u32,
        y: dec_value(t.skip(first_sep(t, comma_pred()) + 1)) as u32,
    }
}

/// The text of one coordinate: `x,y` and a closing space.
pub open spec fn coord_chars(c: GridCoord) -> Seq<char> {
    dec_digits(c.x as nat) + seq![','] + dec_digits(c.y as nat) + seq![' ']
}

/// The text of a whole list of coordinates.
pub open spec fn coord_list_chars(cs: Seq<GridCoord>) -> Seq<char>
    decreases cs.len(),
{
    if cs.len() == 0 {
        Seq::empty()
    } else {
        coord_chars(cs[0]) + coord_list_chars(cs.skip(1))
    }
}

/// Writes the save-file text for a list of blocked coordinates.
pub fn format_coords(coords: &Vec<GridCoord>) -> (r: String)
    ensures
        r@ == coord_list_chars(coords@),
{
    let mut out = String::new();
    proof {
        assert(coords@.skip(0) =~= coords@);
        assert(out@ + coord_list_chars(coords@.skip(0)) =~= coord_list_chars(coords@));
    }
    let mut i: usize = 0;
    while i < coords.len()
        invariant
            i <= coords@.len(),
            out@ + coord_list_chars(coords@.skip(i as int)) == coord_list_chars(coords@),
        decreases coords@.len() - i,
    {
        let c: GridCoord = coords[i];
        append_u32_decimal(&mut out, c.x);
        push_char(&mut out, ',');
        append_u32_decimal(&mut out, c.y);
        push_char(&mut out, ' ');
        proof {
            assert(coords@.skip(i as int).skip(1) =~= coords@.skip(i + 1));
            assert(coords@.skip(i as int)[0] == coords@[i as int]);
            assert(coord_list_chars(coords@.skip(i as int))
                == coord_chars(coords@[i as int]) + coord_list_chars(coords@.skip(i + 1)));
            assert(out@ + coord_list_chars(coords@.skip(i + 1))
                =~= coord_list_chars(coords@));
        }
        i = i + 1;
    }
    proof {
        assert(coords@.skip(i as int) =~= Seq::<GridCoord>::empty());
        assert(coord_list_chars(coords@.skip(i as int)) =~= Seq::<char>::empty());
        assert(out@ =~= coord_list_chars(coords@));
    }
    out
}

/// The first whitespace character at or after `from`, if any.
fn find_ws_char(s: &str, from: usize) -> (r: Option<usize>)
    requires
        from <= s@.len(),
    ensures
        match r {
            Some(j) => from <= j < s@.len() && is_ws(s@[j as int])
                && (forall|k: int| from <= k < j ==> !is_ws(#[trigger] s@[k])),
            None => forall|k: int| from <= k < s@.len() ==> !is_ws(#[trigger] s@[k]),
        },
{
    let n = s.unicode_len();
    let mut i: usize = from;
    while i < n
        invariant
            from <= i <= n == s@.len(),
            forall|k: int| from <= k < i ==> !is_ws(#[trigger] s@[k]),
        decreases n - i,
    {
        let c: char = s.get_char(i);
        if c == ' ' || c == '\t' || c == '\n' || c == '\r' {
            return Some(i);
        }
        i = i + 1;
    }
    None
}

/// The first comma between `from` and `to`, if any.
fn find_comma_in(s: &str, from: usize, to: usize) -> (r: Option<usize>)
    requires
        from <= to <= s@.len(),
    ensures
        match r {
            Some(j) => from <= j < to && s@[j as int] == ','
                && (forall|k: int| from <= k < j ==> s@[k] != ','),
            None => forall|k: int| from <= k < to ==> s@[k] != ',',
        },
{
    let mut i: usize = from;
    while i < to
        invariant
            from <= i <= to <= s@.len(),
            forall|k: int| from <= k < i ==> s@[k] != ',',
        decreases to - i,
    {
        let c: char = s.get_char(i);
        if c == ',' {
            return Some(i);
        }
        i = i + 1;
    }
    None
}

/// Reads one `x,y` token from the characters of `s` between `from` and
/// `to`.
fn parse_token(s: &str, from: usize, to: usize) -> (r: Option<GridCoord>)
    requires
        from < to <= s@.len(),
    ensures
        ({
            let t = s@.subrange(from as int, to as int);
            match r {
                Some(c) => valid_token(t) && c == token_coord(t),
                None => !valid_token(t),
            }
        }),
{
    let ghost t = s@.subrange(from as int, to as int);
    match find_comma_in(s, from, to) {
        None => {
            proof {
                if has_sep(t, comma_pred()) {
                    let i = choose|i: int| 0 <= i < t.len() && comma_pred()(#[trigger] t[i]);
                    assert(s@[from + i] == ',');
                }
            }
            None
        },
        Some(p) => {
            proof {
                assert(t[p - from] == s@[p as int]);
                assert(comma_pred()(t[p - from]));
                assert forall|k: int| 0 <= k < p - from implies !comma_pred()(#[trigger] t[k]) by {
                    assert(t[k] == s@[from + k]);
                }
                lemma_first_sep_unique(t, comma_pred(), p - from);
                assert(t.take(p - from) =~= s@.subrange(from as int, p as int));
                assert(t.skip(p - from + 1) =~= s@.subrange(p + 1, to as int));
            }
            let x = parse_u32_range(s, from, p);
            let y = parse_u32_range(s, p + 1, to);
            match (x, y) {
                (Some(xv), Some(yv)) => Some(GridCoord { x: xv, y: yv }),
                _ => None,
            }
        },
    }
}

/// Reads every token of the suffix of `s` that starts at `from`,
/// appending the coordinates to `out`; stops at the first token that is
/// not a well-formed pair.
fn parse_tokens_from(s: &str, from: usize, out: &mut Vec<GridCoord>) -> (ok: bool)
    requires
        from <= s@.len(),
    ensures
        ({
            let toks = ws_tokens(s@.skip(from as int));
            if ok {
                (forall|k: int| 0 <= k < toks.len() ==> valid_token(#[trigger] toks[k]))
                    && final(out)@ == old(out)@ + toks.map_values(|t: Seq<char>| token_coord(t))
            } else {
                exists|k: int| 0 <= k < toks.len() && !valid_token(#[trigger] toks[k])
            }
        }),
    decreases s@.len() - from,
{
    let ghost suf = s@.skip(from as int);
    let ghost nonempty = |t: Seq<char>| t.len() > 0;
    let ghost to_coord = |t: Seq<char>| token_coord(t);
    let n = s.unicode_len();
    match find_ws_char(s, from) {
        None => {
            proof {
                assert forall|k: int| 0 <= k < suf.len() implies !is_ws(#[trigger] suf[k]) by {
                    assert(suf[k] == s@[from + k]);
                }
                if has_sep(suf, ws_pred()) {
                    let i = choose|i: int| 0 <= i < suf.len() && ws_pred()(#[trigger] suf[i]);
                    assert(is_ws(suf[i]));
                }
                lemma_segments_whole(suf, ws_pred());
                lemma_filter_singleton_run(suf);
            }
            if n - from == 0 {
                proof {
                    assert(ws_tokens(suf) =~= Seq::<Seq<char>>::empty());
                    assert(ws_tokens(suf).map_values(to_coord) =~= Seq::<GridCoord>::empty());
                    assert(out@ =~= out@ + ws_tokens(suf).map_values(to_coord));
                }
                true
            } else {
                proof {
                    assert(suf =~= s@.subrange(from as int, n as int));
                    assert(ws_tokens(suf) == seq![suf]);
                    assert(ws_tokens(suf)[0] == suf);
                }
                match parse_token(s, from, n) {
                    Some(c) => {
                        out.push(c);
                        proof {
                            assert(ws_tokens(suf).map_values(to_coord) =~= seq![token_coord(suf)]);
                            assert(out@ =~= old(out)@ + ws_tokens(suf).map_values(to_coord));
                        }
                        true
                    },
                    None => false,
                }
            }
        },
        Some(j) => {
            let ghost seg = suf.take(j - from);
            let ghost tail = s@.skip(j + 1);
            proof {
                assert forall|k: int| 0 <= k < seg.len() implies !is_ws(#[trigger] seg[k]) by {
                    assert(seg[k] == s@[from + k]);
                }
                if has_sep(seg, ws_pred()) {
                    let i = choose|i: int| 0 <= i < seg.len() && ws_pred()(#[trigger] seg[i]);
                    assert(is_ws(seg[i]));
                }
                assert(ws_pred()(s@[j as int]));
                assert(suf =~= seg + seq![s@[j as int]] + tail);
                lemma_segments_split(seg, s@[j as int], tail, ws_pred());
                Seq::filter_distributes_over_add(seq![seg], segments(tail, ws_pred()), nonempty);
                lemma_filter_singleton_run(seg);
            }
            if j - from == 0 {
                proof {
                    assert(ws_tokens(suf) =~= ws_tokens(tail));
                }
                let r = parse_tokens_from(s, j + 1, out);
                r
            } else {
                proof {
                    assert(seg =~= s@.subrange(from as int, j as int));
                    assert(ws_tokens(suf) == seq![seg] + ws_tokens(tail));
                    assert(ws_tokens(suf)[0] == seg);
                }
                match parse_token(s, from, j) {
                    Some(c) => {
                        out.push(c);
                        let ghost mid = out@;
                        let r = parse_tokens_from(s, j + 1, out);
                        proof {
                            if r {
                                assert forall|k: int| 0 <= k < ws_tokens(suf).len()
                                    implies valid_token(#[trigger] ws_tokens(suf)[k]) by {
                                    if k > 0 {
                                        assert(ws_tokens(suf)[k] == ws_tokens(tail)[k - 1]);
                                    }
                                }
                                assert(out@ =~= old(out)@ + ws_tokens(suf).map_values(to_coord));
                            } else {
                                let k = choose|k: int|
                                    0 <= k < ws_tokens(tail).len()
                                        && !valid_token(#[trigger] ws_tokens(tail)[k]);
                                assert(ws_tokens(suf)[k + 1] == ws_tokens(tail)[k]);
                                assert(!valid_token(ws_tokens(suf)[k + 1]));
                            }
                        }
                        r
                    },
                    None => {
                        proof {
                            assert(!valid_token(ws_tokens(suf)[0]));
                        }
                        false
                    },
                }
            }
        },
    }
}

/// Reads a whole save file: every whitespace-separated token must be a
/// well-formed `x,y` pair, and the coordinates come back in order;
/// `None` when some token is not well-formed.
pub fn parse_coords(s: &str) -> (r: Option<Vec<GridCoord>>)
    ensures
        match r {
            Some(v) => (forall|k: int|
                0 <= k < ws_tokens(s@).len() ==> valid_token(#[trigger] ws_tokens(s@)[k]))
                && v@ == ws_tokens(s@).map_values(|t: Seq<char>| token_coord(t)),
            None => exists|k: int|
                0 <= k < ws_tokens(s@).len() && !valid_token(#[trigger] ws_tokens(s@)[k]),
        },
{
    let mut out: Vec<GridCoord> = Vec::new();
    proof {
        assert(s@.skip(0) =~= s@);
    }
    let ok = parse_tokens_from(s, 0, &mut out);
    if ok {
        proof {
            assert(out@ =~= ws_tokens(s@).map_values(|t: Seq<char>| token_coord(t)));
        }
        Some(out)
    } else {
        None
    }
}

/// The coordinates of `parsed` that are not already in `existing`, in
/// order.
pub fn missing_coords(parsed: &Vec<GridCoord>, existing: &Vec<GridCoord>) -> (r: Vec<GridCoord>)
    ensures
        r@ == parsed@.filter(|c: GridCoord| !existing@.contains(c)),
{
    let ghost pred = |c: GridCoord| !existing@.contains(c);
    let mut r: Vec<GridCoord> = Vec::new();
    proof {
        assert(parsed@.take(0) =~= Seq::<GridCoord>::empty());
        assert(r@ =~= parsed@.take(0).filter(pred));
    }
    let mut i: usize = 0;
    while i < parsed.len()
        invariant
            i <= parsed@.len(),
            pred == (|c: GridCoord| !existing@.contains(c)),
            r@ == parsed@.take(i as int).filter(pred),
        decreases parsed@.len() - i,
    {
        let c: GridCoord = parsed[i];
        proof {
            assert(parsed@.take(i + 1) =~= parsed@.take(i as int).push(c));
            Seq::filter_distributes_over_add(parsed@.take(i as int), seq![c], pred);
            assert(parsed@.take(i as int) + seq![c] =~= parsed@.take(i + 1));
            lemma_filter_singleton_coord(c, pred);
        }
        if !contains_coord(existing, c) {
            r.push(c);
            proof {
                assert(r@ =~= parsed@.take(i as int).filter(pred) + seq![c].filter(pred));
            }
        } else {
            proof {
                assert(r@ =~= parsed@.take(i as int).filter(pred) + seq![c].filter(pred));
            }
        }
        i = i + 1;
    }
    proof {
        assert(parsed@.take(i as int) =~= parsed@);
    }
    r
}

/// Adds a wall coordinate to the blocked list unless it is already
/// there; says whether it was added.
pub fn insert_wall_coord(blocked: &mut Vec<GridCoord>, coord: GridCoord) -> (added: bool)
    ensures
        added == !old(blocked)@.contains(coord),
        added ==> final(blocked)@ == old(blocked)@.push(coord),
        !added ==> final(blocked)@ == old(blocked)@,
{
    if contains_coord(blocked, coord) {
        false
    } else {
        blocked.push(coord);
        true
    }
}

/// Whether the list holds the given coordinate.
fn contains_coord(v: &Vec<GridCoord>, c: GridCoord) -> (r: bool)
    ensures
        r == v@.contains(c),
{
    let mut i: usize = 0;
    while i < v.len()
        invariant
            i <= v@.len(),
            forall|k: int| 0 <= k < i ==> v@[k] != c,
        decreases v@.len() - i,
    {
        let e: GridCoord = v[i];
        if e.x == c.x && e.y == c.y {
            return true;
        }
        i = i + 1;
    }
    false
}

/// Filtering a one-coordinate sequence.
proof fn lemma_filter_singleton_coord(c: GridCoord, pred: spec_fn(GridCoord) -> bool)
    ensures
        pred(c) ==> seq![c].filter(pred) == seq![c],
        !pred(c) ==> seq![c].filter(pred) == Seq::<GridCoord>::empty(),
{
    reveal(Seq::filter);
    assert(seq![c].drop_last() =~= Seq::<GridCoord>::empty());
    assert(Seq::<GridCoord>::empty().filter(pred) == Seq::<GridCoord>::empty());
    assert(seq![c].last() == c);
    if pred(c) {
        assert(seq![c].filter(pred) =~= seq![c]);
    }
}

/// Writing a list of coordinates and reading the text back yields the
/// same list: each written pair is one well-formed token, and its
/// coordinate is the one written.
pub proof fn lemma_coord_list_round_trip(cs: Seq<GridCoord>)
    ensures
        forall|k: int|
            0 <= k < ws_tokens(coord_list_chars(cs)).len()
                ==> valid_token(#[trigger] ws_tokens(coord_list_chars(cs))[k]),
        ws_tokens(coord_list_chars(cs)).map_values(|t: Seq<char>| token_coord(t)) == cs,
    decreases cs.len(),
{
    let to_coord = |t: Seq<char>| token_coord(t);
    let nonempty = |t: Seq<char>| t.len() > 0;
    if cs.len() == 0 {
        let e = coord_list_chars(cs);
        assert(e == Seq::<char>::empty());
        assert(!has_sep(e, ws_pred()));
        lemma_segments_whole(e, ws_pred());
        lemma_filter_singleton_run(e);
        assert(ws_tokens(e).map_values(to_coord) =~= cs);
    } else {
        lemma_coord_list_round_trip(cs.skip(1));
        let c = cs[0];
        let token = dec_digits(c.x as nat) + seq![','] + dec_digits(c.y as nat);
        let rest = coord_list_chars(cs.skip(1));
        lemma_dec_digits_len(c.x as nat);
        lemma_dec_digits_len(c.y as nat);
        lemma_dec_digits_are_digits(c.x as nat);
        lemma_dec_digits_are_digits(c.y as nat);
        lemma_dec_value_of_digits(c.x as nat);
        lemma_dec_value_of_digits(c.y as nat);
        assert(coord_list_chars(cs) =~= token + seq![' '] + rest);
        assert forall|k: int| 0 <= k < token.len() implies !is_ws(#[trigger] token[k]) by {
            lemma_token_char_kind(c, k);
        }
        if has_sep(token, ws_pred()) {
            let i = choose|i: int| 0 <= i < token.len() && ws_pred()(#[trigger] token[i]);
            assert(is_ws(token[i]));
        }
        assert(ws_pred()(' '));
        lemma_segments_split(token, ' ', rest, ws_pred());
        Seq::filter_distributes_over_add(seq![token], segments(rest, ws_pred()), nonempty);
        lemma_filter_singleton_run(token);
        assert(ws_tokens(coord_list_chars(cs)) == seq![token] + ws_tokens(rest));
        lemma_token_well_formed(c);
        assert forall|k: int|
            0 <= k < ws_tokens(coord_list_chars(cs)).len()
                implies valid_token(#[trigger] ws_tokens(coord_list_chars(cs))[k]) by {
            if k == 0 {
                assert(ws_tokens(coord_list_chars(cs))[0] == token);
            } else {
                assert(ws_tokens(coord_list_chars(cs))[k] == ws_tokens(rest)[k - 1]);
            }
        }
        assert(ws_tokens(coord_list_chars(cs)).map_values(to_coord)
            =~= seq![to_coord(token)] + ws_tokens(rest).map_values(to_coord));
        assert(to_coord(token) == c);
        assert(seq![to_coord(token)] + ws_tokens(rest).map_values(to_coord) =~= cs);
    }
}

/// No character of a written pair is whitespace: they are digits and
/// the comma.
proof fn lemma_token_char_kind(c: GridCoord, k: int)
    requires
        0 <= k < (dec_digits(c.x as nat) + seq![','] + dec_digits(c.y as nat)).len(),
    ensures
        !is_ws((dec_digits(c.x as nat) + seq![','] + dec_digits(c.y as nat))[k]),
{
    let token = dec_digits(c.x as nat) + seq![','] + dec_digits(c.y as nat);
    let xl = dec_digits(c.x as nat).len() as int;
    lemma_dec_digits_are_digits(c.x as nat);
    lemma_dec_digits_are_digits(c.y as nat);
    if k < xl {
        assert(token[k] == dec_digits(c.x as nat)[k]);
        assert(48 <= token[k] as u32 <= 57);
    } else if k == xl {
        assert(token[k] == ',');
    } else {
        assert(token[k] == dec_digits(c.y as nat)[k - xl - 1]);
        assert(48 <= token[k] as u32 <= 57);
    }
}

/// A written pair is a well-formed token naming the written coordinate.
proof fn lemma_token_well_formed(c: GridCoord)
    ensures
        valid_token(dec_digits(c.x as nat) + seq![','] + dec_digits(c.y as nat)),
        token_coord(dec_digits(c.x as nat) + seq![','] + dec_digits(c.y as nat)) == c,
{
    let token = dec_digits(c.x as nat) + seq![','] + dec_digits(c.y as nat);
    let xl = dec_digits(c.x as nat).len() as int;
    lemma_dec_digits_len(c.x as nat);
    lemma_dec_digits_len(c.y as nat);
    lemma_dec_digits_are_digits(c.x as nat);
    lemma_dec_digits_are_digits(c.y as nat);
    lemma_dec_value_of_digits(c.x as nat);
    lemma_dec_value_of_digits(c.y as nat);
    assert(token[xl] == ',');
    assert(comma_pred()(token[xl]));
    assert forall|k: int| 0 <= k < xl implies !comma_pred()(#[trigger] token[k]) by {
        assert(token[k] == dec_digits(c.x as nat)[k]);
        assert(48 <= token[k] as u32 <= 57);
    }
    lemma_first_sep_unique(token, comma_pred(), xl);
    assert(token.take(xl) =~= dec_digits(c.x as nat));
    assert(token.skip(xl + 1) =~= dec_digits(c.y as nat));
}

} // verus!

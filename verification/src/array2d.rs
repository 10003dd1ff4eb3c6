//! A rectangular grid of copyable values, stored row-major in one `Vec`,
//! with a character-based text form: one character per cell, one line per
//! row, each line closed by a newline.

use vstd::prelude::*;

verus! {

/// A `width` x `height` grid stored row-major: the cell at column `x` and
/// row `y` lives at index `y * width + x` of the backing vector.
#[derive(Debug)]
pub struct Array2D<T: Copy> {
    data: Vec<T>,
    height: usize,
    width: usize,
}

impl<T: Copy> View for Array2D<T> {
    type V = Seq<T>;

    closed spec fn view(&self) -> Seq<T> {
        self.data@
    }
}

impl<T: Copy> Array2D<T> {
    /// The backing vector holds exactly one value per cell.
    #[verifier::type_invariant]
    pub closed spec fn wf(self) -> bool {
        self.data@.len() == self.width * self.height
    }

    pub closed spec fn spec_width(self) -> usize {
        self.width
    }

    pub closed spec fn spec_height(self) -> usize {
        self.height
    }

    pub open spec fn in_bounds(self, x: int, y: int) -> bool {
        0 <= x < self.spec_width() && 0 <= y < self.spec_height()
    }

    /// The value of the cell at column `x`, row `y`.
    pub open spec fn at(self, x: int, y: int) -> T {
        self@[y * self.spec_width() + x]
    }

    pub fn width(&self) -> (w: usize)
        ensures
            w == self.spec_width(),
            self.spec_width() * self.spec_height() <= usize::MAX,
            self@.len() == self.spec_width() * self.spec_height(),
    {
        proof {
            use_type_invariant(self);
        }
        // the element count is a usize, so the grid's area fits one too
        let _len: usize = self.data.len();
        self.width
    }

    pub fn height(&self) -> (h: usize)
        ensures
            h == self.spec_height(),
            self.spec_width() * self.spec_height() <= usize::MAX,
            self@.len() == self.spec_width() * self.spec_height(),
    {
        proof {
            use_type_invariant(self);
        }
        // the element count is a usize, so the grid's area fits one too
        let _len: usize = self.data.len();
        self.height
    }

    /// A fresh grid with every cell set to `init_value`.
    pub fn new(width: usize, height: usize, init_value: T) -> (r: Self)
        requires
            width * height <= usize::MAX,
        ensures
            r.spec_width() == width,
            r.spec_height() == height,
            r@.len() == width * height,
            forall|x: int, y: int| r.in_bounds(x, y) ==> r.at(x, y) == init_value,
    {
        proof {
            assert(width * height >= 0) by (nonlinear_arith);
        }
        let size: usize = width * height;
        let mut data: Vec<T> = Vec::new();
        let mut i: usize = 0;
        while i < size
            invariant
                i <= size,
                data@.len() == i,
                forall|k: int| 0 <= k < i ==> data@[k] == init_value,
            decreases size - i,
        {
            data.push(init_value);
            i = i + 1;
        }
        let r = Self { data, height, width };
        proof {
            assert forall|x: int, y: int| r.in_bounds(x, y) implies r.at(x, y) == init_value by {
                lemma_row_major_index_bound(x, y, width as int, height as int);
            }
        }
        r
    }

    /// The row-major index of the cell at column `x`, row `y`.
    pub fn get_index(&self, coord: (usize, usize)) -> (index: usize)
        requires
            self.in_bounds(coord.0 as int, coord.1 as int),
        ensures
            index == coord.1 * self.spec_width() + coord.0,
            index < self@.len(),
    {
        proof {
            use_type_invariant(self);
            lemma_row_major_index_bound(
                coord.0 as int,
                coord.1 as int,
                self.width as int,
                self.height as int,
            );
        }
        // the element count is a usize, so the index fits one too
        let _len: usize = self.data.len();
        let (x, y) = coord;
        let index: usize = (y * self.width) + x;
        index
    }

    /// A reference to the cell at the given coordinate.
    pub fn get(&self, coord: (usize, usize)) -> (r: &T)
        requires
            self.in_bounds(coord.0 as int, coord.1 as int),
        ensures
            *r == self.at(coord.0 as int, coord.1 as int),
    {
        let index = self.get_index(coord);
        &self.data[index]
    }

    /// Overwrites the cell at the given coordinate, leaving every other
    /// cell and the dimensions unchanged.
    pub fn set(&mut self, coord: (usize, usize), data: T)
        requires
            old(self).in_bounds(coord.0 as int, coord.1 as int),
        ensures
            final(self).spec_width() == old(self).spec_width(),
            final(self).spec_height() == old(self).spec_height(),
            final(self)@ == old(self)@.update(
                coord.1 * old(self).spec_width() + coord.0,
                data,
            ),
            final(self).at(coord.0 as int, coord.1 as int) == data,
            forall|x: int, y: int|
                old(self).in_bounds(x, y) && (x != coord.0 || y != coord.1)
                    ==> final(self).at(x, y) == old(self).at(x, y),
    {
        proof {
            use_type_invariant(&*self);
        }
        let index = self.get_index(coord);
        self.data[index] = data;
        proof {
            assert forall|x: int, y: int|
                old(self).in_bounds(x, y) && (x != coord.0 || y != coord.1)
                    implies final(self).at(x, y) == old(self).at(x, y) by {
                lemma_row_major_index_bound(
                    x,
                    y,
                    self.width as int,
                    self.height as int,
                );
                if y * self.width + x == coord.1 * self.width + coord.0 {
                    lemma_row_major_index_injective(
                        x,
                        y,
                        coord.0 as int,
                        coord.1 as int,
                        self.width as int,
                    );
                }
            }
        }
    }

    /// The cell values in the order they are stored: row-major.
    pub fn iter_data(&self) -> (r: Vec<T>)
        ensures
            r@ == self@,
    {
        let mut r: Vec<T> = Vec::new();
        let mut i: usize = 0;
        let len: usize = self.data.len();
        while i < len
            invariant
                i <= len,
                len == self@.len(),
                r@ == self@.take(i as int),
            decreases len - i,
        {
            r.push(self.data[i]);
            proof {
                assert(r@ =~= self@.take(i + 1));
            }
            i = i + 1;
        }
        proof {
            assert(r@ =~= self@);
        }
        r
    }

    /// Every coordinate paired with its cell value, ordered so that `x` is
    /// exhausted first: (0, 0), (1, 0), ..., (0, 1), (1, 1), ...
    pub fn iter_rows_first_enumerated(&self) -> (r: Vec<((usize, usize), T)>)
        ensures
            r@.len() == self.spec_width() * self.spec_height(),
            forall|x: int, y: int|
                self.in_bounds(x, y)
                    ==> r@[y * self.spec_width() + x]
                        == (((x as usize, y as usize), self.at(x, y))),
    {
        proof {
            use_type_invariant(self);
        }
        let mut r: Vec<((usize, usize), T)> = Vec::new();
        let mut y: usize = 0;
        while y < self.height
            invariant
                y <= self.spec_height(),
                self.wf(),
                r@.len() == y * self.spec_width(),
                forall|i: int, j: int|
                    self.in_bounds(i, j) && j < y
                        ==> r@[j * self.spec_width() + i]
                            == (((i as usize, j as usize), self.at(i, j))),
            decreases self.spec_height() - y,
        {
            let mut x: usize = 0;
            while x < self.width
                invariant
                    x <= self.spec_width(),
                    y < self.spec_height(),
                    self.wf(),
                    r@.len() == y * self.spec_width() + x,
                    forall|i: int, j: int|
                        self.in_bounds(i, j) && j < y
                            ==> r@[j * self.spec_width() + i]
                                == (((i as usize, j as usize), self.at(i, j))),
                    forall|i: int|
                        0 <= i < x
                            ==> r@[y * self.spec_width() + i]
                                == (((i as usize, y as usize), self.at(i, y as int))),
                decreases self.spec_width() - x,
            {
                proof {
                    lemma_row_major_index_bound(
                        x as int,
                        y as int,
                        self.width as int,
                        self.height as int,
                    );
                }
                let v: T = *self.get((x, y));
                r.push(((x, y), v));
                proof {
                    assert forall|i: int, j: int|
                        self.in_bounds(i, j) && j < y
                            implies r@[j * self.spec_width() + i]
                                == (((i as usize, j as usize), self.at(i, j))) by {
                        lemma_row_major_order(i, j, self.width as int, y as int);
                    }
                }
                x = x + 1;
            }
            y = y + 1;
            proof {
                assert(y * self.spec_width() == (y - 1) * self.spec_width() + self.spec_width())
                    by (nonlinear_arith);
            }
        }
        proof {
            assert(self.spec_height() * self.spec_width()
                == self.spec_width() * self.spec_height()) by (nonlinear_arith);
            assert forall|x: int, y2: int| self.in_bounds(x, y2)
                implies r@[y2 * self.spec_width() + x]
                    == (((x as usize, y2 as usize), self.at(x, y2))) by {
                lemma_row_major_index_bound(x, y2, self.width as int, self.height as int);
            }
        }
        r
    }

    /// Every coordinate paired with its cell value, ordered so that `y` is
    /// exhausted first: (0, 0), (0, 1), ..., (1, 0), (1, 1), ...
    pub fn iter_cols_first_enumerated(&self) -> (r: Vec<((usize, usize), T)>)
        ensures
            r@.len() == self.spec_width() * self.spec_height(),
            forall|x: int, y: int|
                self.in_bounds(x, y)
                    ==> r@[x * self.spec_height() + y]
                        == (((x as usize, y as usize), self.at(x, y))),
    {
        proof {
            use_type_invariant(self);
            assert(self.spec_width() * self.spec_height()
                == self.spec_height() * self.spec_width()) by (nonlinear_arith);
        }
        let mut r: Vec<((usize, usize), T)> = Vec::new();
        let mut x: usize = 0;
        while x < self.width
            invariant
                x <= self.spec_width(),
                self.wf(),
                r@.len() == x * self.spec_height(),
                forall|i: int, j: int|
                    self.in_bounds(i, j) && i < x
                        ==> r@[i * self.spec_height() + j]
                            == (((i as usize, j as usize), self.at(i, j))),
            decreases self.spec_width() - x,
        {
            let mut y: usize = 0;
            while y < self.height
                invariant
                    y <= self.spec_height(),
                    x < self.spec_width(),
                    self.wf(),
                    r@.len() == x * self.spec_height() + y,
                    forall|i: int, j: int|
                        self.in_bounds(i, j) && i < x
                            ==> r@[i * self.spec_height() + j]
                                == (((i as usize, j as usize), self.at(i, j))),
                    forall|j: int|
                        0 <= j < y
                            ==> r@[x * self.spec_height() + j]
                                == (((x as usize, j as usize), self.at(x as int, j))),
                decreases self.spec_height() - y,
            {
                proof {
                    lemma_row_major_index_bound(
                        y as int,
                        x as int,
                        self.height as int,
                        self.width as int,
                    );
                }
                let v: T = *self.get((x, y));
                r.push(((x, y), v));
                proof {
                    assert forall|i: int, j: int|
                        self.in_bounds(i, j) && i < x
                            implies r@[i * self.spec_height() + j]
                                == (((i as usize, j as usize), self.at(i, j))) by {
                        lemma_row_major_order(j, i, self.height as int, x as int);
                    }
                }
                y = y + 1;
            }
            x = x + 1;
            proof {
                assert(x * self.spec_height() == (x - 1) * self.spec_height() + self.spec_height())
                    by (nonlinear_arith);
            }
        }
        r
    }
}

/// With `x` within a row of width `w` and `y` within `h` rows, the
/// row-major index stays below `w * h`.
proof fn lemma_row_major_index_bound(x: int, y: int, w: int, h: int)
    requires
        0 <= x < w,
        0 <= y < h,
    ensures
        0 <= y * w + x < w * h,
{
    assert(y * w + x < w * h) by (nonlinear_arith)
        requires
            0 <= x < w,
            0 <= y < h,
    ;
    assert(y * w + x >= 0) by (nonlinear_arith)
        requires
            0 <= x,
            0 <= y,
            0 < w,
    ;
}

/// Two in-row coordinates with the same row-major index are equal.
proof fn lemma_row_major_index_injective(x1: int, y1: int, x2: int, y2: int, w: int)
    requires
        0 <= x1 < w,
        0 <= x2 < w,
        0 <= y1,
        0 <= y2,
        y1 * w + x1 == y2 * w + x2,
    ensures
        x1 == x2,
        y1 == y2,
{
    assert(x1 == x2 && y1 == y2) by (nonlinear_arith)
        requires
            0 <= x1 < w,
            0 <= x2 < w,
            0 <= y1,
            0 <= y2,
            y1 * w + x1 == y2 * w + x2,
    ;
}

/// A cell of an earlier row has a row-major index below the start of the
/// current row.
proof fn lemma_row_major_order(x: int, y: int, w: int, row: int)
    requires
        0 <= x < w,
        0 <= y < row,
    ensures
        y * w + x < row * w,
{
    assert(y * w + x < row * w) by (nonlinear_arith)
        requires
            0 <= x < w,
            0 <= y < row,
    ;
}

/// Whether `s` holds a newline character.
pub open spec fn has_newline(s: Seq<char>) -> bool {
    exists|i: int| 0 <= i < s.len() && s[i] == '\n'
}

/// The index of the first newline of `s`; meaningful only when `s` has
/// one.
pub open spec fn first_nl(s: Seq<char>) -> int
    decreases s.len(),
{
    if s.len() == 0 {
        0
    } else if s[0] == '\n' {
        0
    } else {
        1 + first_nl(s.skip(1))
    }
}

pub proof fn lemma_first_nl(s: Seq<char>)
    requires
        has_newline(s),
    ensures
        0 <= first_nl(s) < s.len(),
        s[first_nl(s)] == '\n',
        forall|k: int| 0 <= k < first_nl(s) ==> s[k] != '\n',
    decreases s.len(),
{
    if s[0] != '\n' {
        let i = choose|i: int| 0 <= i < s.len() && s[i] == '\n';
        assert(s.skip(1)[i - 1] == '\n');
        lemma_first_nl(s.skip(1));
        assert forall|k: int| 0 <= k < first_nl(s) implies s[k] != '\n' by {
            if k > 0 {
                assert(s.skip(1)[k - 1] != '\n');
            }
        }
    }
}

/// The first newline is the only index whose prefix is newline-free.
pub proof fn lemma_first_nl_unique(s: Seq<char>, j: int)
    requires
        0 <= j < s.len(),
        s[j] == '\n',
        forall|k: int| 0 <= k < j ==> s[k] != '\n',
    ensures
        first_nl(s) == j,
    decreases s.len(),
{
    if j > 0 {
        assert(s.skip(1)[j - 1] == '\n');
        assert forall|k: int| 0 <= k < j - 1 implies s.skip(1)[k] != '\n' by {
            assert(s.skip(1)[k] == s[k + 1]);
        }
        lemma_first_nl_unique(s.skip(1), j - 1);
    }
}

/// The segments of `s` between newlines, in order: every newline closes a
/// segment, and the characters after the last newline form one more.
pub open spec fn lines_of(s: Seq<char>) -> Seq<Seq<char>>
    decreases s.len(),
{
    if !has_newline(s) {
        seq![s]
    } else {
        let i = first_nl(s);
        if 0 <= i < s.len() {
            seq![s.take(i)] + lines_of(s.skip(i + 1))
        } else {
            seq![s]
        }
    }
}

/// The non-empty segments, in order: these are the rows of the grid the
/// text describes.
pub open spec fn nonempty_lines(s: Seq<char>) -> Seq<Seq<char>> {
    lines_of(s).filter(|l: Seq<char>| l.len() > 0)
}

/// Whether every line of `s` is either empty or as long as the first
/// one: the shape a grid text must have.
pub open spec fn grid_form(s: Seq<char>) -> bool {
    forall|j: int|
        0 <= j < lines_of(s).len()
            ==> (#[trigger] lines_of(s)[j]).len() == 0
                || lines_of(s)[j].len() == lines_of(s)[0].len()
}

/// Splitting at the first newline: a newline-free prefix becomes the
/// first line, and the rest is split on its own.
pub proof fn lemma_lines_of_split(a: Seq<char>, b: Seq<char>)
    requires
        !has_newline(a),
    ensures
        lines_of(a + seq!['\n'] + b) == seq![a] + lines_of(b),
{
    let s = a + seq!['\n'] + b;
    assert(s[a.len() as int] == '\n');
    assert forall|k: int| 0 <= k < a.len() implies s[k] != '\n' by {
        assert(s[k] == a[k]);
    }
    lemma_first_nl_unique(s, a.len() as int);
    assert(s.take(a.len() as int) =~= a);
    assert(s.skip(a.len() as int + 1) =~= b);
}

/// A string without a newline is one single line.
pub proof fn lemma_lines_of_whole(s: Seq<char>)
    requires
        !has_newline(s),
    ensures
        lines_of(s) == seq![s],
{
}

/// How many of the non-empty lines a run of characters can hold: each
/// takes at least one character.
pub proof fn lemma_nonempty_lines_count(s: Seq<char>)
    ensures
        nonempty_lines(s).len() <= s.len(),
    decreases s.len(),
{
    reveal(Seq::filter);
    if !has_newline(s) {
        lemma_lines_of_whole(s);
        lemma_filter_singleton(s);
        if s.len() == 0 {
            assert(nonempty_lines(s).len() == 0);
        }
    } else {
        lemma_first_nl(s);
        let i = first_nl(s);
        let seg = s.take(i);
        let rest = s.skip(i + 1);
        lemma_nonempty_lines_count(rest);
        Seq::filter_distributes_over_add(
            seq![seg],
            lines_of(rest),
            |l: Seq<char>| l.len() > 0,
        );
        lemma_filter_singleton(seg);
    }
}

/// Filtering a one-element sequence of lines.
proof fn lemma_filter_singleton(l: Seq<char>)
    ensures
        l.len() > 0 ==> seq![l].filter(|x: Seq<char>| x.len() > 0) == seq![l],
        l.len() == 0 ==> seq![l].filter(|x: Seq<char>| x.len() > 0) == Seq::<Seq<char>>::empty(),
{
    reveal(Seq::filter);
    let pred = |x: Seq<char>| x.len() > 0;
    assert(seq![l].drop_last() =~= Seq::<Seq<char>>::empty());
    assert(Seq::<Seq<char>>::empty().filter(pred) == Seq::<Seq<char>>::empty());
    assert(seq![l].last() == l);
    if l.len() > 0 {
        assert(seq![l].filter(pred) =~= seq![l]);
    }
}

/// The number of characters of the first line of `s`; `s` must hold a
/// newline, as every saved grid does.
pub fn find_width(s: &str) -> (w: usize)
    requires
        has_newline(s@),
    ensures
        w == first_nl(s@),
        w == lines_of(s@)[0].len(),
{
    proof {
        lemma_first_nl(s@);
    }
    let n = s.unicode_len();
    let mut i: usize = 0;
    while s.get_char(i) != '\n'
        invariant
            has_newline(s@),
            n == s@.len(),
            0 <= i <= first_nl(s@) < n,
            forall|k: int| 0 <= k < i ==> s@[k] != '\n',
        decreases first_nl(s@) - i,
    {
        proof {
            lemma_first_nl(s@);
        }
        i = i + 1;
    }
    proof {
        lemma_first_nl_unique(s@, i as int);
        assert(lines_of(s@)[0] == s@.take(i as int));
    }
    i
}

/// The first newline at or after `from`, if any.
fn find_nl(s: &str, from: usize) -> (r: Option<usize>)
    requires
        from <= s@.len(),
    ensures
        match r {
            Some(j) => from <= j < s@.len() && s@[j as int] == '\n'
                && (forall|k: int| from <= k < j ==> s@[k] != '\n'),
            None => forall|k: int| from <= k < s@.len() ==> s@[k] != '\n',
        },
{
    let n = s.unicode_len();
    let mut i: usize = from;
    while i < n
        invariant
            from <= i <= n == s@.len(),
            forall|k: int| from <= k < i ==> s@[k] != '\n',
        decreases n - i,
    {
        if s.get_char(i) == '\n' {
            return Some(i);
        }
        i = i + 1;
    }
    None
}

/// The number of non-empty lines of the suffix of `s` that starts at
/// `from`.
fn count_nonempty_lines_from(s: &str, from: usize) -> (r: usize)
    requires
        from <= s@.len(),
    ensures
        r == nonempty_lines(s@.skip(from as int)).len(),
        r <= s@.len() - from,
    decreases s@.len() - from,
{
    proof {
        lemma_nonempty_lines_count(s@.skip(from as int));
    }
    let n = s.unicode_len();
    match find_nl(s, from) {
        None => {
            proof {
                let suf = s@.skip(from as int);
                assert forall|k: int| 0 <= k < suf.len() implies suf[k] != '\n' by {
                    assert(suf[k] == s@[from + k]);
                }
                lemma_lines_of_whole(suf);
                lemma_filter_singleton(suf);
            }
            if n - from > 0 {
                1
            } else {
                0
            }
        },
        Some(j) => {
            let rest = count_nonempty_lines_from(s, j + 1);
            proof {
                let suf = s@.skip(from as int);
                let seg = suf.take(j - from);
                let tail = s@.skip(j + 1);
                assert forall|k: int| 0 <= k < seg.len() implies seg[k] != '\n' by {
                    assert(seg[k] == s@[from + k]);
                }
                assert(suf =~= seg + seq!['\n'] + tail);
                lemma_lines_of_split(seg, tail);
                Seq::filter_distributes_over_add(
                    seq![seg],
                    lines_of(tail),
                    |l: Seq<char>| l.len() > 0,
                );
                lemma_filter_singleton(seg);
                lemma_nonempty_lines_count(tail);
            }
            if j - from > 0 {
                1 + rest
            } else {
                rest
            }
        },
    }
}

/// The number of non-empty lines of `s`: the height of the grid the text
/// describes.
pub fn find_height(s: &str) -> (h: usize)
    ensures
        h == nonempty_lines(s@).len(),
{
    proof {
        assert(s@.skip(0) =~= s@);
    }
    count_nonempty_lines_from(s, 0)
}

/// How a value shows up as a single character in the text form of a
/// grid.
pub trait CharRepresentation: Sized {
    /// The character that stands for this value.
    spec fn char_rep(&self) -> char;

    /// Character/Symbol to represent the item in the array when
    /// translating it to a string.
    fn char_representation(&self) -> (c: char)
        ensures
            c == self.char_rep(),
    ;
}

impl CharRepresentation for char {
    open spec fn char_rep(&self) -> char {
        *self
    }

    fn char_representation(&self) -> (c: char) {
        *self
    }
}

impl CharRepresentation for usize {
    open spec fn char_rep(&self) -> char {
        crate::text::dec_digits(*self as nat)[0]
    }

    fn char_representation(&self) -> (c: char) {
        let mut n: usize = *self;
        while n >= 10
            invariant
                crate::text::dec_digits(n as nat)[0]
                    == crate::text::dec_digits(*self as nat)[0],
            decreases n,
        {
            proof {
                lemma_dec_digits_head(n as nat);
            }
            n = n / 10;
        }
        proof {
            assert(crate::text::dec_digits(n as nat)
                == seq![crate::text::digit_char_spec(n as nat)]);
        }
        crate::text::digit_char(n as u8)
    }
}

/// For a multi-digit number, the leading digit is the leading digit of
/// the number without its last digit.
proof fn lemma_dec_digits_head(n: nat)
    requires
        n >= 10,
    ensures
        crate::text::dec_digits(n)[0] == crate::text::dec_digits(n / 10)[0],
{
    crate::text::lemma_dec_digits_len(n / 10);
    assert(crate::text::dec_digits(n)
        == crate::text::dec_digits(n / 10).push(crate::text::digit_char_spec(n % 10)));
}

impl<T: Copy + CharRepresentation> Array2D<T> {
    /// The characters of row `y`, closed by a newline.
    pub open spec fn row_chars(self, y: int) -> Seq<char> {
        Seq::new(self.spec_width() as nat, |x: int| self.at(x, y).char_rep()).push('\n')
    }

    /// The text of the rows from `y` down.
    pub open spec fn grid_chars_from(self, y: int) -> Seq<char>
        decreases self.spec_height() - y,
    {
        if y < 0 || y >= self.spec_height() {
            Seq::empty()
        } else {
            self.row_chars(y) + self.grid_chars_from(y + 1)
        }
    }

    /// The text form of the whole grid: one character per cell, one line
    /// per row, each line closed by a newline.
    pub open spec fn grid_chars(self) -> Seq<char> {
        self.grid_chars_from(0)
    }

    /// Writes the grid in its text form.
    pub fn to_string(&self) -> (r: String)
        ensures
            r@ == self.grid_chars(),
    {
        proof {
            use_type_invariant(self);
        }
        let mut out = String::new();
        proof {
            assert(out@ + self.grid_chars_from(0) =~= self.grid_chars());
        }
        let mut y: usize = 0;
        while y < self.height
            invariant
                self.wf(),
                y <= self.spec_height(),
                out@ + self.grid_chars_from(y as int) == self.grid_chars(),
            decreases self.spec_height() - y,
        {
            let ghost out0 = out@;
            let mut x: usize = 0;
            proof {
                assert(out@ =~= out0 + Seq::new(0, |i: int| self.at(i, y as int).char_rep()));
            }
            while x < self.width
                invariant
                    self.wf(),
                    x <= self.spec_width(),
                    y < self.spec_height(),
                    out@ == out0 + Seq::new(x as nat, |i: int| self.at(i, y as int).char_rep()),
                decreases self.spec_width() - x,
            {
                let v: T = *self.get((x, y));
                let c = v.char_representation();
                crate::text::push_char(&mut out, c);
                proof {
                    assert(out@ =~= out0
                        + Seq::new((x + 1) as nat, |i: int| self.at(i, y as int).char_rep()));
                }
                x = x + 1;
            }
            crate::text::push_char(&mut out, '\n');
            proof {
                assert(out@ =~= out0 + self.row_chars(y as int));
                assert(self.grid_chars_from(y as int)
                    == self.row_chars(y as int) + self.grid_chars_from(y as int + 1));
                assert(out@ + self.grid_chars_from(y as int + 1)
                    =~= out0 + self.grid_chars_from(y as int));
            }
            y = y + 1;
        }
        proof {
            assert(self.grid_chars_from(y as int) =~= Seq::<char>::empty());
            assert(out@ + self.grid_chars_from(y as int) =~= out@);
        }
        out
    }
}

/// A grid whose lines are all empty or `w` characters long cannot hold
/// more than `s.len()` cells in its non-empty lines.
proof fn lemma_grid_area_bound(s: Seq<char>, w: int)
    requires
        w >= 0,
        forall|j: int|
            0 <= j < lines_of(s).len()
                ==> (#[trigger] lines_of(s)[j]).len() == 0 || lines_of(s)[j].len() == w,
    ensures
        w * nonempty_lines(s).len() <= s.len(),
    decreases s.len(),
{
    let pred = |l: Seq<char>| l.len() > 0;
    if !has_newline(s) {
        lemma_lines_of_whole(s);
        lemma_filter_singleton(s);
        if s.len() == 0 {
            assert(w * nonempty_lines(s).len() == 0) by (nonlinear_arith)
                requires
                    nonempty_lines(s).len() == 0,
            ;
        } else {
            assert(lines_of(s)[0] == s);
            assert(s.len() == w);
            assert(w * 1 == w) by (nonlinear_arith);
        }
    } else {
        lemma_first_nl(s);
        let i = first_nl(s);
        let seg = s.take(i);
        let tail = s.skip(i + 1);
        assert forall|k: int| 0 <= k < seg.len() implies seg[k] != '\n' by {
            assert(seg[k] == s[k]);
        }
        assert(s =~= seg + seq!['\n'] + tail);
        lemma_lines_of_split(seg, tail);
        assert forall|j: int|
            0 <= j < lines_of(tail).len()
                implies (#[trigger] lines_of(tail)[j]).len() == 0
                    || lines_of(tail)[j].len() == w by {
            assert(lines_of(s)[j + 1] == lines_of(tail)[j]);
        }
        lemma_grid_area_bound(tail, w);
        Seq::filter_distributes_over_add(seq![seg], lines_of(tail), pred);
        lemma_filter_singleton(seg);
        assert(lines_of(s)[0] == seg);
        let ct = nonempty_lines(tail).len();
        if seg.len() > 0 {
            assert(seg.len() == w);
            assert(nonempty_lines(s).len() == 1 + ct);
            assert(w * (1 + ct) == w + w * ct) by (nonlinear_arith);
        } else {
            assert(nonempty_lines(s).len() == ct);
        }
    }
}

/// Copies the characters of `s` between `from` and `to` into row `y`.
fn fill_row(arr: &mut Array2D<char>, s: &str, from: usize, to: usize, y: usize)
    requires
        from <= to <= s@.len(),
        to - from == old(arr).spec_width(),
        y < old(arr).spec_height(),
    ensures
        final(arr).spec_width() == old(arr).spec_width(),
        final(arr).spec_height() == old(arr).spec_height(),
        forall|x: int, j: int|
            old(arr).in_bounds(x, j) && j != y ==> final(arr).at(x, j) == old(arr).at(x, j),
        forall|x: int|
            0 <= x < old(arr).spec_width() ==> final(arr).at(x, y as int) == s@[from + x],
{
    let width = arr.width();
    let mut x: usize = 0;
    while x < width
        invariant
            width == arr.spec_width() == old(arr).spec_width(),
            arr.spec_height() == old(arr).spec_height(),
            to - from == width,
            from + width <= to <= s@.len(),
            x <= width,
            y < arr.spec_height(),
            forall|i: int, j: int|
                old(arr).in_bounds(i, j) && j != y ==> arr.at(i, j) == old(arr).at(i, j),
            forall|i: int| 0 <= i < x ==> arr.at(i, y as int) == s@[from + i],
        decreases width - x,
    {
        let c = s.get_char(from + x);
        arr.set((x, y), c);
        x = x + 1;
    }
}

/// Fills the rows of `arr` from `y` down with the non-empty lines of the
/// suffix of `s` that starts at `from`.
fn fill_rows(arr: &mut Array2D<char>, s: &str, from: usize, y: usize)
    requires
        from <= s@.len(),
        forall|j: int|
            0 <= j < lines_of(s@.skip(from as int)).len()
                ==> (#[trigger] lines_of(s@.skip(from as int))[j]).len() == 0
                    || lines_of(s@.skip(from as int))[j].len() == old(arr).spec_width(),
        y + nonempty_lines(s@.skip(from as int)).len() <= old(arr).spec_height(),
    ensures
        final(arr).spec_width() == old(arr).spec_width(),
        final(arr).spec_height() == old(arr).spec_height(),
        forall|x: int, j: int|
            old(arr).in_bounds(x, j) && j < y ==> final(arr).at(x, j) == old(arr).at(x, j),
        forall|x: int, k: int|
            0 <= k < nonempty_lines(s@.skip(from as int)).len()
                && 0 <= x < old(arr).spec_width()
                ==> final(arr).at(x, y + k) == nonempty_lines(s@.skip(from as int))[k][x],
    decreases s@.len() - from,
{
    let ghost suf = s@.skip(from as int);
    let ghost pred = |l: Seq<char>| l.len() > 0;
    let n = s.unicode_len();
    match find_nl(s, from) {
        None => {
            proof {
                assert forall|k: int| 0 <= k < suf.len() implies suf[k] != '\n' by {
                    assert(suf[k] == s@[from + k]);
                }
                lemma_lines_of_whole(suf);
                lemma_filter_singleton(suf);
            }
            if n - from > 0 {
                proof {
                    assert(lines_of(suf)[0] == suf);
                    assert(suf.len() == arr.spec_width());
                    assert(nonempty_lines(suf) == seq![suf]);
                }
                fill_row(arr, s, from, n, y);
                proof {
                    assert forall|x: int, k: int|
                        0 <= k < nonempty_lines(suf).len() && 0 <= x < old(arr).spec_width()
                            implies arr.at(x, y + k) == nonempty_lines(suf)[k][x] by {
                        assert(nonempty_lines(suf)[0] == suf);
                        assert(suf[x] == s@[from + x]);
                    }
                }
            }
        },
        Some(j) => {
            proof {
                let seg = suf.take(j - from);
                let tail = s@.skip(j + 1);
                assert forall|k: int| 0 <= k < seg.len() implies seg[k] != '\n' by {
                    assert(seg[k] == s@[from + k]);
                }
                assert(suf =~= seg + seq!['\n'] + tail);
                lemma_lines_of_split(seg, tail);
                assert forall|j2: int|
                    0 <= j2 < lines_of(tail).len()
                        implies (#[trigger] lines_of(tail)[j2]).len() == 0
                            || lines_of(tail)[j2].len() == old(arr).spec_width() by {
                    assert(lines_of(suf)[j2 + 1] == lines_of(tail)[j2]);
                }
                Seq::filter_distributes_over_add(seq![seg], lines_of(tail), pred);
                lemma_filter_singleton(seg);
                assert(lines_of(suf)[0] == seg);
            }
            let ghost seg = suf.take(j - from);
            let ghost tail = s@.skip(j + 1);
            if j - from > 0 {
                proof {
                    assert(seg.len() == arr.spec_width());
                    assert(nonempty_lines(suf) == seq![seg] + nonempty_lines(tail));
                }
                fill_row(arr, s, from, j, y);
                let ghost mid = *arr;
                fill_rows(arr, s, j + 1, y + 1);
                proof {
                    assert forall|x: int, k: int|
                        0 <= k < nonempty_lines(suf).len() && 0 <= x < old(arr).spec_width()
                            implies arr.at(x, y + k) == nonempty_lines(suf)[k][x] by {
                        if k == 0 {
                            assert(mid.at(x, y as int) == s@[from + x]);
                            assert(seg[x] == s@[from + x]);
                            assert(arr.at(x, y as int) == mid.at(x, y as int));
                        } else {
                            assert(nonempty_lines(suf)[k] == nonempty_lines(tail)[k - 1]);
                            assert(arr.at(x, y + 1 + (k - 1)) == nonempty_lines(tail)[k - 1][x]);
                        }
                    }
                }
            } else {
                proof {
                    assert(nonempty_lines(suf) =~= nonempty_lines(tail));
                }
                fill_rows(arr, s, j + 1, y);
            }
        },
    }
}

impl Array2D<char> {
    /// Reads a grid back from its text form. The text must hold a
    /// newline, and every line must be empty or exactly as long as the
    /// first one; empty lines are skipped.
    pub fn from(s: String) -> (r: Self)
        requires
            has_newline(s@),
            grid_form(s@),
        ensures
            r.spec_width() == lines_of(s@)[0].len(),
            r.spec_height() == nonempty_lines(s@).len(),
            forall|x: int, y: int|
                r.in_bounds(x, y) ==> r.at(x, y) == nonempty_lines(s@)[y][x],
    {
        let st: &str = s.as_str();
        // the character count is a usize, so the grid's area fits one too
        let _n = st.unicode_len();
        let width = find_width(st);
        let height = find_height(st);
        proof {
            lemma_grid_area_bound(s@, width as int);
        }
        let mut arr = Array2D::new(width, height, ' ');
        proof {
            assert(s@.skip(0) =~= s@);
        }
        fill_rows(&mut arr, st, 0, 0);
        arr
    }
}

/// The cells of row `y` of a character grid, without the closing
/// newline.
pub open spec fn char_row_body(a: Array2D<char>, y: int) -> Seq<char> {
    Seq::new(a.spec_width() as nat, |x: int| a.at(x, y))
}

/// The line structure of the text of the rows from `y` down: one line
/// per row, and one empty line after the final newline.
proof fn lemma_grid_chars_lines(a: Array2D<char>, y: int)
    requires
        a.spec_width() > 0,
        0 <= y <= a.spec_height(),
        forall|x: int, j: int| a.in_bounds(x, j) ==> a.at(x, j) != '\n',
    ensures
        lines_of(a.grid_chars_from(y)).len() == a.spec_height() - y + 1,
        forall|k: int|
            0 <= k < a.spec_height() - y
                ==> lines_of(a.grid_chars_from(y))[k] == char_row_body(a, y + k),
        lines_of(a.grid_chars_from(y))[a.spec_height() - y] == Seq::<char>::empty(),
        nonempty_lines(a.grid_chars_from(y))
            == Seq::new((a.spec_height() - y) as nat, |k: int| char_row_body(a, y + k)),
    decreases a.spec_height() - y,
{
    let pred = |l: Seq<char>| l.len() > 0;
    if y == a.spec_height() {
        let e = a.grid_chars_from(y);
        assert(e == Seq::<char>::empty());
        assert(!has_newline(e));
        lemma_lines_of_whole(e);
        lemma_filter_singleton(e);
        assert(nonempty_lines(e) =~= Seq::new(0, |k: int| char_row_body(a, y + k)));
    } else {
        lemma_grid_chars_lines(a, y + 1);
        let body = char_row_body(a, y);
        let rest = a.grid_chars_from(y + 1);
        assert(a.grid_chars_from(y) == a.row_chars(y) + rest);
        assert(a.row_chars(y) =~= body + seq!['\n']);
        assert(a.grid_chars_from(y) =~= body + seq!['\n'] + rest);
        assert forall|k: int| 0 <= k < body.len() implies body[k] != '\n' by {
            assert(body[k] == a.at(k, y));
        }
        lemma_lines_of_split(body, rest);
        Seq::filter_distributes_over_add(seq![body], lines_of(rest), pred);
        lemma_filter_singleton(body);
        assert(nonempty_lines(a.grid_chars_from(y))
            =~= Seq::new((a.spec_height() - y) as nat, |k: int| char_row_body(a, y + k)));
    }
}

/// Reading a character grid's text form back yields the same grid: the
/// text has the grid shape, its first line is as long as the grid is
/// wide, its non-empty lines are the rows, and every cell comes back
/// unchanged. This needs at least one column and one row, and no cell
/// may hold the newline character itself.
pub proof fn lemma_text_round_trip(a: Array2D<char>)
    requires
        a.spec_width() > 0,
        a.spec_height() > 0,
        forall|x: int, y: int| a.in_bounds(x, y) ==> a.at(x, y) != '\n',
    ensures
        has_newline(a.grid_chars()),
        grid_form(a.grid_chars()),
        lines_of(a.grid_chars())[0].len() == a.spec_width(),
        nonempty_lines(a.grid_chars()).len() == a.spec_height(),
        forall|x: int, y: int|
            a.in_bounds(x, y) ==> nonempty_lines(a.grid_chars())[y][x] == a.at(x, y),
{
    lemma_grid_chars_lines(a, 0);
    let s = a.grid_chars();
    if !has_newline(s) {
        lemma_lines_of_whole(s);
        assert(lines_of(s).len() == 1);
        assert(false);
    }
    assert(lines_of(s)[0] == char_row_body(a, 0));
    assert forall|j: int|
        0 <= j < lines_of(s).len()
            implies (#[trigger] lines_of(s)[j]).len() == 0
                || lines_of(s)[j].len() == lines_of(s)[0].len() by {
        if j < a.spec_height() {
            assert(lines_of(s)[j] == char_row_body(a, j));
        }
    }
    assert forall|x: int, y: int|
        a.in_bounds(x, y) implies nonempty_lines(s)[y][x] == a.at(x, y) by {
        assert(nonempty_lines(s)[y] == char_row_body(a, y));
    }
}

impl PartialEq for Array2D<char> {
    /// Two grids are equal when their dimensions and all their cells
    /// are.
    fn eq(&self, other: &Self) -> (r: bool) {
        proof {
            use_type_invariant(self);
            use_type_invariant(other);
        }
        if self.width != other.width || self.height != other.height {
            return false;
        }
        let len = self.data.len();
        let mut i: usize = 0;
        while i < len
            invariant
                self.spec_width() == other.spec_width(),
                self.spec_height() == other.spec_height(),
                len == self@.len(),
                len == other@.len(),
                i <= len,
                forall|k: int| 0 <= k < i ==> self@[k] == other@[k],
            decreases len - i,
        {
            if self.data[i] != other.data[i] {
                return false;
            }
            i = i + 1;
        }
        proof {
            assert(self@ =~= other@);
        }
        true
    }
}

impl Eq for Array2D<char> {

}

impl vstd::std_specs::cmp::PartialEqSpecImpl for Array2D<char> {
    open spec fn obeys_eq_spec() -> bool {
        true
    }

    open spec fn eq_spec(&self, other: &Self) -> bool {
        self.spec_width() == other.spec_width()
            && self.spec_height() == other.spec_height()
            && self@ == other@
    }
}

} // verus!

//! Decoding of compact puzzle descriptors into grids of labels.
use vstd::prelude::*;

verus! {

/// A grid of labels, one row after another; label 0 marks a blank cell.
pub type Field = Vec<Vec<usize>>;

/// Value of a character read as a hexadecimal digit, if it is one.
pub open spec fn hex_value(c: char) -> Option<nat> {
    if '0' <= c && c <= '9' {
        Some((c as nat - '0' as nat) as nat)
    } else if 'a' <= c && c <= 'f' {
        Some((c as nat - 'a' as nat + 10) as nat)
    } else if 'A' <= c && c <= 'F' {
        Some((c as nat - 'A' as nat + 10) as nat)
    } else {
        None
    }
}

/// Number of blank cells that a non-digit character skips (its offset past 'f').
pub open spec fn skip_len(c: char) -> int {
    (c as u32) as int - ('f' as u32) as int
}

/// Characters accepted in a field code.
pub open spec fn is_code_char(c: char) -> bool {
    ('0' <= c && c <= '9') || ('a' <= c && c <= 'z') || ('A' <= c && c <= 'Z')
}

/// The cells of the grid that a field code describes, read from index `k`
/// with the cursor at the row-major cell `pos`, on top of the cells `g`.
pub open spec fn decode_from(code: Seq<char>, k: nat, pos: nat, g: Seq<usize>) -> Seq<usize>
    decreases code.len() - k,
{
    if k >= code.len() || pos >= g.len() {
        g
    } else {
        match hex_value(code[k as int]) {
            Some(v) => decode_from(code, k + 1, pos + 1, g.update(pos as int, v as usize)),
            None => if skip_len(code[k as int]) > 0 {
                decode_from(code, k + 1, (pos + skip_len(code[k as int])) as nat, g)
            } else {
                g
            },
        }
    }
}

/// The row-major cells of the `width` x `height` grid that a field code describes.
pub open spec fn decoded(code: Seq<char>, width: nat, height: nat) -> Seq<usize> {
    decode_from(code, 0, 0, Seq::new(width * height, |i: int| 0usize))
}

/// A grid of `height` rows of `width` cells holding `cells` in row-major order.
pub open spec fn rows_of(f: Seq<Seq<usize>>, cells: Seq<usize>, width: nat, height: nat) -> bool {
    &&& f.len() == height
    &&& forall|r: int| 0 <= r < height ==> (#[trigger] f[r]).len() == width
    &&& forall|r: int, c: int|
        0 <= r < height && 0 <= c < width ==> #[trigger] f[r][c] == cells[r * width + c]
}

/// The view of a field as nested sequences.
pub open spec fn field_view(f: &Field) -> Seq<Seq<usize>> {
    Seq::new(f@.len(), |r: int| f@[r]@)
}

/// True when every character of the code belongs to the field-code alphabet.
pub fn is_valid_code(code: &Vec<char>) -> (r: bool)
    ensures
        r == (forall|k: int| 0 <= k < code@.len() ==> is_code_char(#[trigger] code@[k])),
{
    let mut k: usize = 0;
    while k < code.len()
        invariant
            k <= code@.len(),
            forall|m: int| 0 <= m < k ==> is_code_char(#[trigger] code@[m]),
        decreases code@.len() - k,
    {
        let c = code[k];
        if !(('0' <= c && c <= '9') || ('a' <= c && c <= 'z') || ('A' <= c && c <= 'Z')) {
            return false;
        }
        k = k + 1;
    }
    true
}

/// Label that the character at `index` encodes, if it is a hexadecimal digit.
pub fn get_num(index: usize, list: &Vec<char>) -> (r: Option<usize>)
    requires
        index < list@.len(),
    ensures
        r matches Some(v) ==> hex_value(list@[index as int]) == Some(v as nat),
        r is None ==> hex_value(list@[index as int]) is None,
{
    let ch = list[index];
    if '0' <= ch && ch <= '9' {
        Some((ch as u32 - '0' as u32) as usize)
    } else if 'a' <= ch && ch <= 'f' {
        Some((ch as u32 - 'a' as u32 + 10) as usize)
    } else if 'A' <= ch && ch <= 'F' {
        Some((ch as u32 - 'A' as u32 + 10) as usize)
    } else {
        None
    }
}

} // verus!

verus! {

/// Where a scan of run-length characters from index `k`, cursor `pos`, ends:
/// the index it stops at, the cursor (at most `cells`), and whether it stopped
/// at a digit, at the end of the code or of the grid (true) or at a character
/// whose run length is not positive (false).
pub open spec fn skip_from(code: Seq<char>, k: nat, pos: nat, cells: nat) -> (nat, nat, bool)
    decreases code.len() - k,
{
    if k >= code.len() || pos >= cells || hex_value(code[k as int]) is Some {
        (k, pos, true)
    } else if skip_len(code[k as int]) <= 0 {
        (k, pos, false)
    } else if pos + skip_len(code[k as int]) >= cells {
        skip_from(code, k + 1, cells, cells)
    } else {
        skip_from(code, k + 1, (pos + skip_len(code[k as int])) as nat, cells)
    }
}

/// Skips the run-length characters that start at `*index`, moving the cursor
/// `*pos` past the blank cells they stand for. Returns false when it met a
/// character whose run length is not positive, which ends the decoding.
pub fn consume(index: &mut usize, pos: &mut usize, cells: usize, list: &Vec<char>) -> (r: bool)
    requires
        *old(index) <= list@.len(),
        *old(pos) <= cells,
    ensures
        *old(index) <= *final(index) <= list@.len(),
        *final(pos) <= cells,
        forall|g: Seq<usize>| g.len() == cells ==>
            #[trigger] decode_from(list@, *old(index) as nat, *old(pos) as nat, g)
                == if r { decode_from(list@, *final(index) as nat, *final(pos) as nat, g) } else { g },
        r ==> (*final(index) == list@.len() || *final(pos) >= cells
            || hex_value(list@[*final(index) as int]) is Some),
        (*final(index) as nat, *final(pos) as nat, r) == skip_from(list@, *old(index) as nat, *old(pos) as nat, cells as nat),
{
    let length = list.len();
    while *index < length && *pos < cells && get_num(*index, list).is_none()
        invariant
            *old(index) <= *index <= length,
            length == list@.len(),
            *pos <= cells,
            skip_from(list@, *old(index) as nat, *old(pos) as nat, cells as nat)
                == skip_from(list@, *index as nat, *pos as nat, cells as nat),
            forall|g: Seq<usize>| g.len() == cells ==>
                #[trigger] decode_from(list@, *old(index) as nat, *old(pos) as nat, g)
                    == decode_from(list@, *index as nat, *pos as nat, g),
        decreases length - *index,
    {
        let ch = list[*index];
        let point: u32 = ch as u32;
        if point <= 'f' as u32 {
            assert(forall|g: Seq<usize>| g.len() == cells ==>
                #[trigger] decode_from(list@, *index as nat, *pos as nat, g) == g);
            return false;
        }
        let value = (point - 'f' as u32) as usize;
        assert(forall|g: Seq<usize>| g.len() == cells ==>
            #[trigger] decode_from(list@, *index as nat, *pos as nat, g)
                == decode_from(list@, (*index + 1) as nat, (*pos + value) as nat, g));
        if value >= cells - *pos {
            assert(forall|g: Seq<usize>| g.len() == cells ==>
                #[trigger] decode_from(list@, (*index + 1) as nat, (*pos + value) as nat, g)
                    == decode_from(list@, (*index + 1) as nat, cells as nat, g));
            *pos = cells;
        } else {
            *pos = *pos + value;
        }
        *index = *index + 1;
    }
    true
}

/// Decodes a field code into a grid of `height` rows of `width` labels.
pub fn decode_field(width: usize, height: usize, code: &Vec<char>) -> (r: Option<Field>)
    requires
        width * height <= usize::MAX,
    ensures
        r is None <==> (width == 0 || height == 0
            || !(forall|k: int| 0 <= k < code@.len() ==> is_code_char(#[trigger] code@[k]))),
        r matches Some(f) ==> rows_of(field_view(&f), decoded(code@, width as nat, height as nat),
            width as nat, height as nat),
{
    if width == 0 || height == 0 || !is_valid_code(code) {
        return None;
    }
    let cells: usize = width * height;
    let mut flat: Vec<usize> = Vec::new();
    while flat.len() < cells
        invariant
            flat@.len() <= cells,
            forall|i: int| 0 <= i < flat@.len() ==> flat@[i] == 0usize,
        decreases cells - flat@.len(),
    {
        flat.push(0);
    }
    let ghost blank = flat@;
    assert(blank =~= Seq::new(cells as nat, |i: int| 0usize));
    let mut index: usize = 0;
    let mut pos: usize = 0;
    let mut going = true;
    while going && index < code.len() && pos < cells
        invariant
            index <= code@.len(),
            pos <= cells,
            cells == width * height,
            flat@.len() == cells,
            decode_from(code@, 0, 0, blank) == if going {
                decode_from(code@, index as nat, pos as nat, flat@)
            } else {
                flat@
            },
        decreases code@.len() - index, if going { 1int } else { 0int },
    {
        match get_num(index, code) {
            Some(num) => {
                flat.set(pos, num);
                index = index + 1;
                pos = pos + 1;
            },
            None => {
                let before_index = index;
                going = consume(&mut index, &mut pos, cells, code);
                if going && index == before_index {
                    going = false;
                }
            },
        }
    }
    Some(split_rows(&flat, width, height))
}

/// The cells `base .. base + width` of `flat`.
fn copy_row(flat: &Vec<usize>, base: usize, width: usize) -> (row: Vec<usize>)
    requires
        base + width <= flat@.len(),
    ensures
        row@ == flat@.subrange(base as int, base + width),
{
    let n = flat.len();
    let mut row: Vec<usize> = Vec::new();
    let mut c: usize = 0;
    while c < width
        invariant
            c <= width,
            n == flat@.len(),
            base + width <= flat@.len(),
            row@ == flat@.subrange(base as int, base + c),
        decreases width - c,
    {
        row.push(flat[base + c]);
        c = c + 1;
        assert(row@ =~= flat@.subrange(base as int, base + c));
    }
    row
}

/// Cuts row-major cells into `height` rows of `width` cells.
fn split_rows(flat: &Vec<usize>, width: usize, height: usize) -> (f: Field)
    requires
        flat@.len() == width * height,
    ensures
        rows_of(field_view(&f), flat@, width as nat, height as nat),
{
    let n = flat.len();
    let mut f: Field = Vec::new();
    let mut base: usize = 0;
    while f.len() < height
        invariant
            flat@.len() == width * height,
            n == flat@.len(),
            f@.len() <= height,
            base == f@.len() * width,
            forall|r: int| 0 <= r < f@.len() ==> (#[trigger] f@[r])@.len() == width,
            forall|r: int, c: int| 0 <= r < f@.len() && 0 <= c < width
                ==> #[trigger] f@[r]@[c] == flat@[r * width + c],
        decreases height - f@.len(),
    {
        assert(base + width <= width * height) by (nonlinear_arith)
            requires base == f@.len() * width, f@.len() < height;
        let row = copy_row(flat, base, width);
        let ghost old_f = f@;
        let ghost old_base = base;
        let ghost row_v = row@;
        f.push(row);
        base = base + width;
        assert(base == f@.len() * width) by (nonlinear_arith)
            requires base == (f@.len() - 1) * width + width;
        assert forall|r: int, c: int| 0 <= r < f@.len() && 0 <= c < width implies
            #[trigger] f@[r]@[c] == flat@[r * width + c] by {
            if r < old_f.len() {
                assert(f@[r] == old_f[r]);
                assert(old_f[r]@[c] == flat@[r * width + c]);
            } else {
                assert(f@[r]@ == row_v);
                assert(r * width == old_base) by (nonlinear_arith)
                    requires r == old_f.len(), old_base == old_f.len() * width;
                assert(row_v[c] == flat@[old_base + c]);
            }
        }
    }
    assert(field_view(&f).len() == height);
    f
}

} // verus!

verus! {

/// Index of the last '/' before `end`, or -1 when there is none.
pub open spec fn last_slash(s: Seq<char>, end: int) -> int
    decreases end,
{
    if end <= 0 {
        -1
    } else if s[end - 1] == '/' {
        end - 1
    } else {
        last_slash(s, end - 1)
    }
}

pub open spec fn is_dec_digit(c: char) -> bool {
    '0' <= c && c <= '9'
}

/// Value of a string of decimal digits.
pub open spec fn dec_value(s: Seq<char>) -> nat
    decreases s.len(),
{
    if s.len() == 0 {
        0
    } else {
        dec_value(s.drop_last()) * 10 + (s.last() as nat - '0' as nat) as nat
    }
}

/// The number that `s` spells in decimal, when it is one that fits in `usize`.
pub open spec fn dec_number(s: Seq<char>) -> Option<usize> {
    if s.len() > 0 && (forall|k: int| 0 <= k < s.len() ==> is_dec_digit(#[trigger] s[k]))
        && dec_value(s) <= usize::MAX {
        Some(dec_value(s) as usize)
    } else {
        None
    }
}

proof fn lemma_dec_value_grows(s: Seq<char>, k: int)
    requires
        0 <= k <= s.len(),
        forall|m: int| 0 <= m < s.len() ==> is_dec_digit(#[trigger] s[m]),
    ensures
        dec_value(s.subrange(0, k)) <= dec_value(s),
    decreases s.len() - k,
{
    if k < s.len() {
        lemma_dec_value_grows(s, k + 1);
        let t = s.subrange(0, k + 1);
        assert(t.drop_last() =~= s.subrange(0, k));
    } else {
        assert(s.subrange(0, k) =~= s);
    }
}

/// Reads the decimal number held by `s[lo..hi]`.
fn parse_dec(s: &Vec<char>, lo: usize, hi: usize) -> (r: Option<usize>)
    requires
        lo <= hi <= s@.len(),
    ensures
        r == dec_number(s@.subrange(lo as int, hi as int)),
{
    let ghost d = s@.subrange(lo as int, hi as int);
    if lo == hi {
        return None;
    }
    let mut value: usize = 0;
    let mut k: usize = lo;
    while k < hi
        invariant
            lo <= k <= hi <= s@.len(),
            d == s@.subrange(lo as int, hi as int),
            forall|m: int| lo <= m < k ==> is_dec_digit(#[trigger] s@[m]),
            value == dec_value(s@.subrange(lo as int, k as int)),
        decreases hi - k,
    {
        let c = s[k];
        if !('0' <= c && c <= '9') {
            assert(!is_dec_digit(d[k - lo]));
            return None;
        }
        let digit = (c as u32 - '0' as u32) as usize;
        assert(s@.subrange(lo as int, k + 1).drop_last() =~= s@.subrange(lo as int, k as int));
        if value > (usize::MAX - digit) / 10 {
            proof {
                assert(value * 10 + digit > usize::MAX) by (nonlinear_arith)
                    requires value > (usize::MAX - digit) / 10, digit <= 9;
                if forall|m: int| 0 <= m < d.len() ==> is_dec_digit(#[trigger] d[m]) {
                    lemma_dec_value_grows(d, k + 1 - lo);
                    assert(d.subrange(0, k + 1 - lo) =~= s@.subrange(lo as int, k + 1));
                }
            }
            return None;
        }
        assert(value * 10 + digit <= usize::MAX) by (nonlinear_arith)
            requires value <= (usize::MAX - digit) / 10, digit <= 9;
        value = value * 10 + digit;
        k = k + 1;
    }
    assert(d =~= s@.subrange(lo as int, k as int));
    Some(value)
}

/// Width, height and field code of a descriptor whose last three
/// '/'-separated segments hold them; None when there are fewer segments.
pub open spec fn url_parts(url: Seq<char>) -> Option<(Seq<char>, Seq<char>, Seq<char>)> {
    let p1 = last_slash(url, url.len() as int);
    let p2 = last_slash(url, p1);
    let p3 = last_slash(url, p2);
    if p1 < 0 || p2 < 0 {
        None
    } else {
        Some((url.subrange(p3 + 1, p2), url.subrange(p2 + 1, p1), url.subrange(p1 + 1, url.len() as int)))
    }
}

/// What a descriptor stands for: the dimensions and the field code, or the
/// reason it is rejected.
pub open spec fn url_meaning(url: Seq<char>) -> Result<(usize, usize, Seq<char>), crate::NumberlinkError> {
    match url_parts(url) {
        None => Err(crate::NumberlinkError::MalformedUrl),
        Some((w, h, code)) => match (dec_number(w), dec_number(h)) {
            (Some(width), Some(height)) => if width == 0 || height == 0
                || width * height > usize::MAX
                || !(forall|k: int| 0 <= k < code.len() ==> is_code_char(#[trigger] code[k])) {
                Err(crate::NumberlinkError::MalformedUrl)
            } else {
                Ok((width, height, code))
            },
            _ => Err(crate::NumberlinkError::MalformedUrl),
        },
    }
}

fn find_last_slash(s: &Vec<char>, end: usize) -> (r: Option<usize>)
    requires
        end <= s@.len(),
    ensures
        r matches Some(p) ==> p < end && last_slash(s@, end as int) == p,
        r is None ==> last_slash(s@, end as int) == -1,
{
    let mut e: usize = end;
    while e > 0
        invariant
            e <= end <= s@.len(),
            last_slash(s@, end as int) == last_slash(s@, e as int),
        decreases e,
    {
        if s[e - 1] == '/' {
            return Some(e - 1);
        }
        e = e - 1;
    }
    None
}

/// Parses a descriptor `.../width/height/code` into the field it describes.
pub fn parse_url(url: &Vec<char>) -> (r: Result<Field, crate::NumberlinkError>)
    ensures
        match url_meaning(url@) {
            Err(e) => r == Err::<Field, _>(e),
            Ok((width, height, code)) => r matches Ok(f) && rows_of(field_view(&f),
                decoded(code, width as nat, height as nat), width as nat, height as nat),
        },
{
    let p1 = match find_last_slash(url, url.len()) {
        Some(p) => p,
        None => return Err(crate::NumberlinkError::MalformedUrl),
    };
    let p2 = match find_last_slash(url, p1) {
        Some(p) => p,
        None => return Err(crate::NumberlinkError::MalformedUrl),
    };
    let start = match find_last_slash(url, p2) {
        Some(p) => p + 1,
        None => 0,
    };
    let width = match parse_dec(url, start, p2) {
        Some(w) => w,
        None => return Err(crate::NumberlinkError::MalformedUrl),
    };
    let height = match parse_dec(url, p2 + 1, p1) {
        Some(h) => h,
        None => return Err(crate::NumberlinkError::MalformedUrl),
    };
    if width == 0 || height == 0 || width > usize::MAX / height {
        proof {
            if width > 0 && height > 0 && width > usize::MAX / height {
                assert(width * height > usize::MAX) by (nonlinear_arith)
                    requires width > usize::MAX / height, height > 0;
            }
        }
        return Err(crate::NumberlinkError::MalformedUrl);
    }
    assert(width * height <= usize::MAX) by (nonlinear_arith)
        requires width <= usize::MAX / height, height > 0;
    let mut field_code: Vec<char> = Vec::new();
    let mut k: usize = p1 + 1;
    while k < url.len()
        invariant
            p1 + 1 <= k <= url@.len(),
            field_code@ == url@.subrange(p1 + 1, k as int),
        decreases url@.len() - k,
    {
        field_code.push(url[k]);
        k = k + 1;
        assert(field_code@ =~= url@.subrange(p1 + 1, k as int));
    }
    if !is_valid_code(&field_code) {
        return Err(crate::NumberlinkError::MalformedUrl);
    }
    match decode_field(width, height, &field_code) {
        Some(f) => Ok(f),
        None => Err(crate::NumberlinkError::MalformedUrl),
    }
}

} // verus!

//! Tile addresses of the quad-tree-like map partition.
//!
//! A tile key names one cell of the map grid at a zoom level, together
//! with the query filter fields that are part of its identity.  Keys
//! round-trip through a compact textual form, and a rectangle of the
//! grid can be enumerated in full.

use vstd::prelude::*;

use crate::digits::{
    all_digits, dec_digits, digit_val, digits_val, int_chars, is_digit, lemma_all_digits_val_nonneg,
    lemma_dec_digits_are_digits, lemma_digits_val_dec_digits, parse_digits_range, push_dec_u64,
    push_int_i64,
};

verus! {

/// The zoom level used when a caller does not name one.
pub const DEFAULT_ZOOM: u8 = 15;

/// The portal level filter used when a caller does not name one.
pub const DEFAULT_MAX_LEVEL: u8 = 8;

/// The health filter used when a caller does not name one.
pub const DEFAULT_HEALTH: u8 = 100;

/// The supported zoom range: zoom values outside it are clamped.
pub const MIN_ZOOM: u8 = 3;

/// The upper end of the supported zoom range.
pub const MAX_ZOOM: u8 = 15;

/// The number of tiles along one edge of the map at a zoom level.
pub open spec fn spec_tiles_per_edge(zoom: int) -> int {
    let z = if zoom < MIN_ZOOM as int {
        MIN_ZOOM as int
    } else if zoom > MAX_ZOOM as int {
        MAX_ZOOM as int
    } else {
        zoom
    };
    if z <= 4 {
        40
    } else if z <= 6 {
        80
    } else if z == 7 {
        320
    } else if z == 8 {
        1000
    } else if z <= 10 {
        2000
    } else if z == 11 {
        4000
    } else if z == 12 {
        8000
    } else if z <= 14 {
        16000
    } else {
        32000
    }
}

/// The number of tiles along one edge of the map at a zoom level,
/// clamped to the supported zoom range.
pub fn tiles_per_edge(zoom: u8) -> (r: u16)
    ensures
        r as int == spec_tiles_per_edge(zoom as int),
{
    let z = if zoom < MIN_ZOOM {
        MIN_ZOOM
    } else if zoom > MAX_ZOOM {
        MAX_ZOOM
    } else {
        zoom
    };
    if z <= 4 {
        40
    } else if z <= 6 {
        80
    } else if z == 7 {
        320
    } else if z == 8 {
        1000
    } else if z <= 10 {
        2000
    } else if z == 11 {
        4000
    } else if z == 12 {
        8000
    } else if z <= 14 {
        16000
    } else {
        32000
    }
}

/// A tile address: grid position, zoom level, and the query filter
/// fields that belong to the key's identity.
#[derive(Clone, Copy, Debug, PartialEq, Eq, Hash, Structural)]
pub struct TileKey {
    /// Zoom level of the grid the tile belongs to.
    pub zoom: u8,
    /// Column index of the tile.
    pub x: i64,
    /// Row index of the tile.
    pub y: i64,
    /// Lower portal level filter carried in the key.
    pub min_level: u8,
    /// Upper portal level filter carried in the key.
    pub max_level: u8,
    /// Health filter carried in the key.
    pub health: u8,
}

/// The value of an optional argument with its default.
pub open spec fn opt_or(o: Option<u8>, d: u8) -> u8 {
    match o {
        Some(v) => v,
        None => d,
    }
}

impl TileKey {
    /// The key for given grid coordinates; optional fields fall back
    /// to their defaults.
    pub fn from_coords(
        x: i64,
        y: i64,
        zoom: Option<u8>,
        min_level: Option<u8>,
        max_level: Option<u8>,
        health: Option<u8>,
    ) -> (r: TileKey)
        ensures
            r == (TileKey {
                zoom: opt_or(zoom, DEFAULT_ZOOM),
                x,
                y,
                min_level: opt_or(min_level, 0),
                max_level: opt_or(max_level, DEFAULT_MAX_LEVEL),
                health: opt_or(health, DEFAULT_HEALTH),
            }),
    {
        TileKey {
            zoom: match zoom {
                Some(z) => z,
                None => DEFAULT_ZOOM,
            },
            x,
            y,
            min_level: match min_level {
                Some(m) => m,
                None => 0,
            },
            max_level: match max_level {
                Some(m) => m,
                None => DEFAULT_MAX_LEVEL,
            },
            health: match health {
                Some(h) => h,
                None => DEFAULT_HEALTH,
            },
        }
    }
}

/// Whether a key lies in the rectangle of grid positions with the
/// given corner coordinates and carries the given field values.
pub open spec fn in_grid(
    k: TileKey,
    lo_x: int,
    hi_x: int,
    lo_y: int,
    hi_y: int,
    zoom: u8,
    min_level: u8,
    max_level: u8,
    health: u8,
) -> bool {
    lo_x <= k.x <= hi_x && lo_y <= k.y <= hi_y && k.zoom == zoom && k.min_level == min_level
        && k.max_level == max_level && k.health == health
}

/// No key appears twice.
pub open spec fn keys_unique(s: Seq<TileKey>) -> bool {
    forall|i: int, j: int| 0 <= i < j < s.len() ==> s[i] != s[j]
}

/// Every key of the rectangle `[lo_x, hi_x] x [lo_y, hi_y]`, each
/// exactly once.
fn grid(
    lo_x: i64,
    hi_x: i64,
    lo_y: i64,
    hi_y: i64,
    zoom: u8,
    min_level: u8,
    max_level: u8,
    health: u8,
) -> (r: Vec<TileKey>)
    requires
        lo_x <= hi_x,
        lo_y <= hi_y,
        (hi_x - lo_x + 1) * (hi_y - lo_y + 1) <= usize::MAX as int,
    ensures
        r@.len() == (hi_x - lo_x + 1) * (hi_y - lo_y + 1),
        forall|k: TileKey|
            r@.contains(k) <==> in_grid(k, lo_x as int, hi_x as int, lo_y as int, hi_y as int, zoom, min_level, max_level, health),
        keys_unique(r@),
{
    let ghost ny = hi_y - lo_y + 1;
    let mut out: Vec<TileKey> = Vec::new();
    let mut x = lo_x;
    loop
        invariant_except_break
            ny == hi_y - lo_y + 1,
            lo_x <= x <= hi_x,
            lo_y <= hi_y,
            out@.len() == (x - lo_x) * ny,
            (hi_x - lo_x + 1) * ny <= usize::MAX as int,
            forall|k: TileKey|
                out@.contains(k) <==> (in_grid(k, lo_x as int, hi_x as int, lo_y as int, hi_y as int, zoom, min_level, max_level, health)
                    && k.x < x),
            keys_unique(out@),
        ensures
            out@.len() == (hi_x - lo_x + 1) * ny,
            forall|k: TileKey|
                out@.contains(k) <==> in_grid(k, lo_x as int, hi_x as int, lo_y as int, hi_y as int, zoom, min_level, max_level, health),
            keys_unique(out@),
        decreases hi_x - x,
    {
        let mut y = lo_y;
        loop
            invariant_except_break
                ny == hi_y - lo_y + 1,
                lo_y <= y <= hi_y,
                lo_x <= x <= hi_x,
                out@.len() == (x - lo_x) * ny + (y - lo_y),
                (hi_x - lo_x + 1) * ny <= usize::MAX as int,
                forall|k: TileKey|
                    out@.contains(k) <==> (in_grid(k, lo_x as int, hi_x as int, lo_y as int, hi_y as int, zoom, min_level, max_level, health)
                        && (k.x < x || (k.x == x && k.y < y))),
                keys_unique(out@),
            ensures
                lo_x <= x <= hi_x,
                out@.len() == (x - lo_x) * ny + ny,
                forall|k: TileKey|
                    out@.contains(k) <==> (in_grid(k, lo_x as int, hi_x as int, lo_y as int, hi_y as int, zoom, min_level, max_level, health)
                        && k.x <= x),
                keys_unique(out@),
            decreases hi_y - y,
        {
            proof {
                assert(out@.len() < (hi_x - lo_x + 1) * ny) by (nonlinear_arith)
                    requires
                        out@.len() == (x - lo_x) * ny + (y - lo_y),
                        lo_x <= x <= hi_x,
                        lo_y <= y <= hi_y,
                        ny == hi_y - lo_y + 1,
                ;
            }
            let ghost out0 = out@;
            let knew = TileKey { zoom, x, y, min_level, max_level, health };
            out.push(knew);
            proof {
                assert forall|k: TileKey| #[trigger] out@.contains(k) implies (in_grid(
                    k, lo_x as int, hi_x as int, lo_y as int, hi_y as int, zoom, min_level, max_level, health,
                ) && (k.x < x || (k.x == x && k.y < y + 1))) by {
                    let i = choose|i: int| 0 <= i < out@.len() && out@[i] == k;
                    if i < out0.len() {
                        assert(out0.contains(k));
                    } else {
                        assert(k == knew);
                    }
                }
                assert forall|k: TileKey|
                    (in_grid(k, lo_x as int, hi_x as int, lo_y as int, hi_y as int, zoom, min_level, max_level, health)
                        && (k.x < x || (k.x == x && k.y < y + 1))) implies #[trigger] out@.contains(
                    k,
                ) by {
                    if k.x < x || (k.x == x && k.y < y) {
                        assert(out0.contains(k));
                        let i = choose|i: int| 0 <= i < out0.len() && out0[i] == k;
                        assert(out@[i] == k);
                    } else {
                        assert(k == knew);
                        assert(out@[out@.len() - 1] == k);
                    }
                }
                assert forall|i: int, j: int| 0 <= i < j < out@.len() implies out@[i] != out@[j] by {
                    if j < out@.len() - 1 {
                        assert(out0[i] != out0[j]);
                    } else {
                        assert(out0.contains(out0[i]));
                        assert(out0[i].x < x || (out0[i].x == x && out0[i].y < y));
                    }
                }
            }
            if y == hi_y {
                break ;
            }
            y = y + 1;
        }
        proof {
            assert((x - lo_x) * ny + ny == (x + 1 - lo_x) * ny) by (nonlinear_arith);
        }
        if x == hi_x {
            break ;
        }
        x = x + 1;
    }
    out
}

/// The smaller of two coordinates.
pub open spec fn coord_min(a: int, b: int) -> int {
    if a <= b {
        a
    } else {
        b
    }
}

/// The larger of two coordinates.
pub open spec fn coord_max(a: int, b: int) -> int {
    if a <= b {
        b
    } else {
        a
    }
}

impl TileKey {
    /// Every key of the rectangle spanned by the two corner grid
    /// points, corner order immaterial; optional fields fall back to
    /// their defaults.  A degenerate rectangle yields exactly the one
    /// key of its point.
    pub fn range(
        from: (i64, i64),
        to: (i64, i64),
        zoom: Option<u8>,
        min_level: Option<u8>,
        max_level: Option<u8>,
        health: Option<u8>,
    ) -> (r: Vec<TileKey>)
        requires
            (coord_max(from.0 as int, to.0 as int) - coord_min(from.0 as int, to.0 as int) + 1) * (
            coord_max(from.1 as int, to.1 as int) - coord_min(from.1 as int, to.1 as int) + 1)
                <= usize::MAX as int,
        ensures
            ({
                let lo_x = coord_min(from.0 as int, to.0 as int);
                let hi_x = coord_max(from.0 as int, to.0 as int);
                let lo_y = coord_min(from.1 as int, to.1 as int);
                let hi_y = coord_max(from.1 as int, to.1 as int);
                &&& r@.len() == (hi_x - lo_x + 1) * (hi_y - lo_y + 1)
                &&& forall|k: TileKey|
                    r@.contains(k) <==> in_grid(k, lo_x, hi_x, lo_y, hi_y, opt_or(zoom, DEFAULT_ZOOM), opt_or(min_level, 0), opt_or(max_level, DEFAULT_MAX_LEVEL), opt_or(health, DEFAULT_HEALTH))
                &&& keys_unique(r@)
                &&& from == to ==> r@ =~= seq![
                    TileKey {
                        zoom: opt_or(zoom, DEFAULT_ZOOM),
                        x: from.0,
                        y: from.1,
                        min_level: opt_or(min_level, 0),
                        max_level: opt_or(max_level, DEFAULT_MAX_LEVEL),
                        health: opt_or(health, DEFAULT_HEALTH),
                    },
                ]
            }),
    {
        let zoom = match zoom {
            Some(z) => z,
            None => DEFAULT_ZOOM,
        };
        let min_level = match min_level {
            Some(m) => m,
            None => 0,
        };
        let max_level = match max_level {
            Some(m) => m,
            None => DEFAULT_MAX_LEVEL,
        };
        let health = match health {
            Some(h) => h,
            None => DEFAULT_HEALTH,
        };
        let lo_x = if from.0 <= to.0 {
            from.0
        } else {
            to.0
        };
        let hi_x = if from.0 <= to.0 {
            to.0
        } else {
            from.0
        };
        let lo_y = if from.1 <= to.1 {
            from.1
        } else {
            to.1
        };
        let hi_y = if from.1 <= to.1 {
            to.1
        } else {
            from.1
        };
        let r = grid(lo_x, hi_x, lo_y, hi_y, zoom, min_level, max_level, health);
        proof {
            if from == to {
                assert(hi_x as int - lo_x as int + 1 == 1);
                assert(hi_y as int - lo_y as int + 1 == 1);
                assert(r@.len() == 1) by (nonlinear_arith)
                    requires
                        r@.len() == (hi_x as int - lo_x as int + 1) * (hi_y as int - lo_y as int
                            + 1),
                        hi_x as int - lo_x as int + 1 == 1,
                        hi_y as int - lo_y as int + 1 == 1,
                ;
                let k0 = TileKey { zoom, x: from.0, y: from.1, min_level, max_level, health };
                assert(r@.contains(k0));
                let i = choose|i: int| 0 <= i < r@.len() && r@[i] == k0;
                assert(r@ =~= seq![k0]);
            }
        }
        r
    }

    /// Every key of the `side` by `side` block whose corner is this
    /// key, sharing its zoom and filter fields.
    pub fn square(self, side: u8) -> (r: Vec<TileKey>)
        requires
            side >= 1 ==> self.x + side as int - 1 <= i64::MAX as int && self.y + side as int - 1
                <= i64::MAX as int,
        ensures
            r@.len() == side as int * side as int,
            forall|k: TileKey|
                r@.contains(k) <==> (side >= 1 && in_grid(k, self.x as int, self.x as int + side as int - 1, self.y as int, self.y as int + side as int - 1, self.zoom, self.min_level, self.max_level, self.health)),
            keys_unique(r@),
    {
        if side == 0 {
            let r: Vec<TileKey> = Vec::new();
            return r;
        }
        let d = (side - 1) as i64;
        proof {
            assert((d as int + 1) * (d as int + 1) <= 65536) by (nonlinear_arith)
                requires
                    0 <= d < 256,
            ;
        }
        grid(
            self.x,
            self.x + d,
            self.y,
            self.y + d,
            self.zoom,
            self.min_level,
            self.max_level,
            self.health,
        )
    }

    /// This key moved by a grid offset, all other fields kept.
    pub fn offset(self, dx: i64, dy: i64) -> (r: TileKey)
        requires
            i64::MIN as int <= self.x as int + dx as int <= i64::MAX as int,
            i64::MIN as int <= self.y as int + dy as int <= i64::MAX as int,
        ensures
            r == (TileKey { x: (self.x + dx) as i64, y: (self.y + dy) as i64, ..self }),
    {
        TileKey { x: self.x + dx, y: self.y + dy, ..self }
    }
}

/// The textual form of a key: its six fields in decimal, joined by
/// underscores.
pub open spec fn spec_encode(k: TileKey) -> Seq<char> {
    dec_digits(k.zoom as nat) + seq!['_'] + int_chars(k.x as int) + seq!['_'] + int_chars(
        k.y as int,
    ) + seq!['_'] + dec_digits(k.min_level as nat) + seq!['_'] + dec_digits(k.max_level as nat)
        + seq!['_'] + dec_digits(k.health as nat)
}

impl TileKey {
    /// Writes the key in its textual form.
    pub fn encode(&self) -> (r: String)
        ensures
            r@ == spec_encode(*self),
    {
        let mut out = String::new();
        push_dec_u64(&mut out, self.zoom as u64);
        push_sep(&mut out);
        push_int_i64(&mut out, self.x);
        push_sep(&mut out);
        push_int_i64(&mut out, self.y);
        push_sep(&mut out);
        push_dec_u64(&mut out, self.min_level as u64);
        push_sep(&mut out);
        push_dec_u64(&mut out, self.max_level as u64);
        push_sep(&mut out);
        push_dec_u64(&mut out, self.health as u64);
        proof {
            assert(out@ =~= spec_encode(*self));
        }
        out
    }
}

/// Appends the field separator.
fn push_sep(out: &mut String)
    ensures
        final(out)@ == old(out)@ + seq!['_'],
{
    proof {
        reveal_strlit("_");
    }
    out.append("_");
}

/// The six fields of a key's textual form.
#[derive(Clone, Copy, Debug, PartialEq, Eq, Structural)]
pub enum TileKeyField {
    /// The zoom field.
    Zoom,
    /// The column field.
    X,
    /// The row field.
    Y,
    /// The lower level filter field.
    MinLevel,
    /// The upper level filter field.
    MaxLevel,
    /// The health filter field.
    Health,
}

/// Why a textual key failed to decode: a field was absent, or was not
/// a number of the field's type.
#[derive(Clone, Copy, Debug, PartialEq, Eq, Structural)]
pub enum TileKeyFromStrError {
    /// The named field was absent from the text.
    Missing(TileKeyField),
    /// The named field was present but not a number of its type.
    Invalid(TileKeyField),
}

/// The position of the first separator in `s`, or `s.len()` if there
/// is none.
pub open spec fn first_sep(s: Seq<char>) -> int
    decreases s.len(),
{
    if s.len() == 0 {
        0
    } else if s[0] == '_' {
        0
    } else {
        1 + first_sep(s.skip(1))
    }
}

/// The text before the first separator.
pub open spec fn head_chunk(s: Seq<char>) -> Seq<char> {
    s.take(first_sep(s))
}

/// The text after the first separator, if there is one.
pub open spec fn tail_chunks(s: Seq<char>) -> Option<Seq<char>> {
    if first_sep(s) < s.len() {
        Some(s.skip(first_sep(s) + 1))
    } else {
        None
    }
}

/// The first separator is the position of the first `'_'`: everything
/// before `k` differs from `'_'`, and `k` is a `'_'` or the end.
pub proof fn lemma_first_sep_at(s: Seq<char>, k: int)
    requires
        0 <= k <= s.len(),
        forall|j: int| 0 <= j < k ==> s[j] != '_',
        k < s.len() ==> s[k] == '_',
    ensures
        first_sep(s) == k,
    decreases k,
{
    if k == 0 {
    } else {
        assert(s[0] != '_');
        lemma_first_sep_at(s.skip(1), k - 1);
    }
}

/// An unsigned field parses when the chunk is one or more decimal
/// digits whose value fits in a byte.
pub open spec fn spec_parse_u8(s: Seq<char>) -> Option<u8> {
    if s.len() >= 1 && all_digits(s) && digits_val(s) <= 255 {
        Some(digits_val(s) as u8)
    } else {
        None
    }
}

/// A signed field parses when the chunk is an optional minus sign and
/// one or more decimal digits whose value fits the type.
pub open spec fn spec_parse_i64(s: Seq<char>) -> Option<i64> {
    if s.len() >= 1 && s[0] == '-' {
        let t = s.skip(1);
        if t.len() >= 1 && all_digits(t) && digits_val(t) <= 0x8000000000000000 {
            Some((-digits_val(t)) as i64)
        } else {
            None
        }
    } else if s.len() >= 1 && all_digits(s) && digits_val(s) <= 0x7fffffffffffffff {
        Some(digits_val(s) as i64)
    } else {
        None
    }
}

/// What decoding a textual key yields: the six fields are read in
/// order, each reported as missing or invalid when it fails; text
/// after the sixth field is ignored.
pub open spec fn spec_decode(s: Seq<char>) -> Result<TileKey, TileKeyFromStrError> {
    match spec_parse_u8(head_chunk(s)) {
        None => Err(TileKeyFromStrError::Invalid(TileKeyField::Zoom)),
        Some(zoom) => match tail_chunks(s) {
            None => Err(TileKeyFromStrError::Missing(TileKeyField::X)),
            Some(s1) => match spec_parse_i64(head_chunk(s1)) {
                None => Err(TileKeyFromStrError::Invalid(TileKeyField::X)),
                Some(x) => match tail_chunks(s1) {
                    None => Err(TileKeyFromStrError::Missing(TileKeyField::Y)),
                    Some(s2) => match spec_parse_i64(head_chunk(s2)) {
                        None => Err(TileKeyFromStrError::Invalid(TileKeyField::Y)),
                        Some(y) => match tail_chunks(s2) {
                            None => Err(TileKeyFromStrError::Missing(TileKeyField::MinLevel)),
                            Some(s3) => match spec_parse_u8(head_chunk(s3)) {
                                None => Err(TileKeyFromStrError::Invalid(TileKeyField::MinLevel)),
                                Some(min_level) => match tail_chunks(s3) {
                                    None => Err(TileKeyFromStrError::Missing(TileKeyField::MaxLevel)),
                                    Some(s4) => match spec_parse_u8(head_chunk(s4)) {
                                        None => Err(TileKeyFromStrError::Invalid(TileKeyField::MaxLevel)),
                                        Some(max_level) => match tail_chunks(s4) {
                                            None => Err(TileKeyFromStrError::Missing(TileKeyField::Health)),
                                            Some(s5) => match spec_parse_u8(head_chunk(s5)) {
                                                None => Err(TileKeyFromStrError::Invalid(TileKeyField::Health)),
                                                Some(health) => Ok(TileKey {
                                                    zoom,
                                                    x,
                                                    y,
                                                    min_level,
                                                    max_level,
                                                    health,
                                                }),
                                            },
                                        },
                                    },
                                },
                            },
                        },
                    },
                },
            },
        },
    }
}

/// The position right after `start` where the next separator stands,
/// or the end of the text.
fn find_sep(cs: &Vec<char>, start: usize) -> (r: usize)
    requires
        start <= cs@.len(),
    ensures
        start <= r <= cs@.len(),
        r - start == first_sep(cs@.skip(start as int)),
{
    let n = cs.len();
    let mut i = start;
    while i < n && *vstd::slice::slice_index_get(cs.as_slice(), i) != '_'
        invariant
            start <= i <= n == cs@.len(),
            forall|j: int| start <= j < i ==> cs@[j] != '_',
        decreases n - i,
    {
        i = i + 1;
    }
    proof {
        let t = cs@.skip(start as int);
        assert(forall|j: int| 0 <= j < i - start ==> t[j] == cs@[start + j] && t[j] != '_');
        if (i as int) < cs@.len() {
            assert(t[i - start] == cs@[i as int]);
        }
        lemma_first_sep_at(t, i - start);
    }
    i
}

/// Parses an unsigned field between `lo` and `hi`.
fn parse_u8_range(cs: &Vec<char>, lo: usize, hi: usize) -> (r: Option<u8>)
    requires
        lo <= hi <= cs@.len(),
    ensures
        r == spec_parse_u8(cs@.subrange(lo as int, hi as int)),
{
    match parse_digits_range(cs, lo, hi, 255) {
        Some(v) => Some(v as u8),
        None => None,
    }
}

/// Parses a signed field between `lo` and `hi`.
fn parse_i64_range(cs: &Vec<char>, lo: usize, hi: usize) -> (r: Option<i64>)
    requires
        lo <= hi <= cs@.len(),
    ensures
        r == spec_parse_i64(cs@.subrange(lo as int, hi as int)),
{
    let ghost s = cs@.subrange(lo as int, hi as int);
    if lo < hi && cs[lo] == '-' {
        proof {
            assert(s[0] == '-');
            assert(s.skip(1) =~= cs@.subrange(lo as int + 1, hi as int));
        }
        match parse_digits_range(cs, lo + 1, hi, 0x8000000000000000u64) {
            Some(v) => {
                let r: i64 = if v == 0x8000000000000000u64 {
                    i64::MIN
                } else {
                    -(v as i64)
                };
                assert(r as int == -(v as int));
                Some(r)
            },
            None => None,
        }
    } else {
        proof {
            if s.len() >= 1 {
                assert(s[0] == cs@[lo as int]);
            }
        }
        match parse_digits_range(cs, lo, hi, 0x7fffffffffffffffu64) {
            Some(v) => Some(v as i64),
            None => None,
        }
    }
}

impl TileKey {
    /// Reads a key back from its textual form.
    #[verifier::rlimit(100)]
    pub fn decode(s: &str) -> (r: Result<TileKey, TileKeyFromStrError>)
        ensures
            r == spec_decode(s@),
    {
        let n = s.unicode_len();
        let mut cs: Vec<char> = Vec::new();
        let mut i: usize = 0;
        while i < n
            invariant
                i <= n == s@.len(),
                cs@ == s@.take(i as int),
            decreases n - i,
        {
            cs.push(s.get_char(i));
            proof {
                assert(cs@ =~= s@.take(i + 1));
            }
            i = i + 1;
        }
        proof {
            assert(cs@ =~= s@);
        }

        let len = cs.len();
        proof {
            assert(cs@.skip(0) =~= cs@);
        }
        let e0 = find_sep(&cs, 0);
        proof {
            assert(cs@.subrange(0, e0 as int) =~= head_chunk(cs@));
        }
        let zoom = match parse_u8_range(&cs, 0, e0) {
            Some(v) => v,
            None => {
                return Err(TileKeyFromStrError::Invalid(TileKeyField::Zoom));
            },
        };
        if e0 == len {
            return Err(TileKeyFromStrError::Missing(TileKeyField::X));
        }
        let b1 = e0 + 1;
        let ghost t1 = tail_chunks(cs@)->0;
        proof {
            assert(t1 =~= cs@.skip(b1 as int));
        }

        let e1 = find_sep(&cs, b1);
        proof {
            assert(cs@.subrange(b1 as int, e1 as int) =~= head_chunk(t1)) by {
                assert(cs@.skip(b1 as int) == t1);
                assert(cs@.subrange(b1 as int, e1 as int) =~= t1.take(e1 - b1));
            }
        }
        let x = match parse_i64_range(&cs, b1, e1) {
            Some(v) => v,
            None => {
                return Err(TileKeyFromStrError::Invalid(TileKeyField::X));
            },
        };
        if e1 == len {
            assert(first_sep(t1) == t1.len());
            return Err(TileKeyFromStrError::Missing(TileKeyField::Y));
        }
        let b2 = e1 + 1;
        let ghost t2 = tail_chunks(t1)->0;
        proof {
            assert(t2 =~= cs@.skip(b2 as int));
        }

        let e2 = find_sep(&cs, b2);
        proof {
            assert(cs@.subrange(b2 as int, e2 as int) =~= head_chunk(t2)) by {
                assert(cs@.skip(b2 as int) == t2);
                assert(cs@.subrange(b2 as int, e2 as int) =~= t2.take(e2 - b2));
            }
        }
        let y = match parse_i64_range(&cs, b2, e2) {
            Some(v) => v,
            None => {
                return Err(TileKeyFromStrError::Invalid(TileKeyField::Y));
            },
        };
        if e2 == len {
            assert(first_sep(t2) == t2.len());
            return Err(TileKeyFromStrError::Missing(TileKeyField::MinLevel));
        }
        let b3 = e2 + 1;
        let ghost t3 = tail_chunks(t2)->0;
        proof {
            assert(t3 =~= cs@.skip(b3 as int));
        }

        let e3 = find_sep(&cs, b3);
        proof {
            assert(cs@.subrange(b3 as int, e3 as int) =~= head_chunk(t3)) by {
                assert(cs@.skip(b3 as int) == t3);
                assert(cs@.subrange(b3 as int, e3 as int) =~= t3.take(e3 - b3));
            }
        }
        let min_level = match parse_u8_range(&cs, b3, e3) {
            Some(v) => v,
            None => {
                return Err(TileKeyFromStrError::Invalid(TileKeyField::MinLevel));
            },
        };
        if e3 == len {
            assert(first_sep(t3) == t3.len());
            return Err(TileKeyFromStrError::Missing(TileKeyField::MaxLevel));
        }
        let b4 = e3 + 1;
        let ghost t4 = tail_chunks(t3)->0;
        proof {
            assert(t4 =~= cs@.skip(b4 as int));
        }

        let e4 = find_sep(&cs, b4);
        proof {
            assert(cs@.subrange(b4 as int, e4 as int) =~= head_chunk(t4)) by {
                assert(cs@.skip(b4 as int) == t4);
                assert(cs@.subrange(b4 as int, e4 as int) =~= t4.take(e4 - b4));
            }
        }
        let max_level = match parse_u8_range(&cs, b4, e4) {
            Some(v) => v,
            None => {
                return Err(TileKeyFromStrError::Invalid(TileKeyField::MaxLevel));
            },
        };
        if e4 == len {
            assert(first_sep(t4) == t4.len());
            return Err(TileKeyFromStrError::Missing(TileKeyField::Health));
        }
        let b5 = e4 + 1;
        let ghost t5 = tail_chunks(t4)->0;
        proof {
            assert(t5 =~= cs@.skip(b5 as int));
        }

        let e5 = find_sep(&cs, b5);
        proof {
            assert(cs@.subrange(b5 as int, e5 as int) =~= head_chunk(t5)) by {
                assert(cs@.skip(b5 as int) == t5);
                assert(cs@.subrange(b5 as int, e5 as int) =~= t5.take(e5 - b5));
            }
        }
        let health = match parse_u8_range(&cs, b5, e5) {
            Some(v) => v,
            None => {
                return Err(TileKeyFromStrError::Invalid(TileKeyField::Health));
            },
        };
        Ok(TileKey { zoom, x, y, min_level, max_level, health })
    }
}

/// No character of `s` is the field separator.
pub open spec fn sep_free(s: Seq<char>) -> bool {
    forall|i: int| 0 <= i < s.len() ==> s[i] != '_'
}

/// Decimal digits contain neither the separator nor a minus sign.
proof fn lemma_digits_sep_free(s: Seq<char>)
    requires
        all_digits(s),
    ensures
        sep_free(s),
        s.len() >= 1 ==> s[0] != '-',
{
    assert forall|i: int| 0 <= i < s.len() implies s[i] != '_' by {
        assert(is_digit(s[i]));
    }
    if s.len() >= 1 {
        assert(is_digit(s[0]));
    }
}

/// Splitting undoes joining: the head chunk of `a + '_' + rest` is
/// `a`, and the tail is `rest`, whenever `a` is separator-free.
proof fn lemma_chunk_concat(a: Seq<char>, rest: Seq<char>)
    requires
        sep_free(a),
    ensures
        head_chunk(a + seq!['_'] + rest) == a,
        tail_chunks(a + seq!['_'] + rest) == Some(rest),
{
    let s = a + seq!['_'] + rest;
    assert(s[a.len() as int] == '_');
    assert(forall|j: int| 0 <= j < a.len() ==> s[j] == a[j]);
    lemma_first_sep_at(s, a.len() as int);
    assert(s.take(a.len() as int) =~= a);
    assert(s.skip(a.len() as int + 1) =~= rest);
}

/// A separator-free text is all head chunk, with no tail.
proof fn lemma_chunk_whole(a: Seq<char>)
    requires
        sep_free(a),
    ensures
        head_chunk(a) == a,
        tail_chunks(a) is None,
{
    lemma_first_sep_at(a, a.len() as int);
    assert(a.take(a.len() as int) =~= a);
}

/// The digits of a byte value parse back to that value.
proof fn lemma_parse_u8_dec(v: u8)
    ensures
        spec_parse_u8(dec_digits(v as nat)) == Some(v),
{
    lemma_dec_digits_are_digits(v as nat);
    lemma_digits_val_dec_digits(v as nat);
}

/// The decimal text of a signed value parses back to that value.
proof fn lemma_parse_i64_int(v: i64)
    ensures
        spec_parse_i64(int_chars(v as int)) == Some(v),
{
    if v < 0 {
        let m = (-(v as int)) as nat;
        lemma_dec_digits_are_digits(m);
        lemma_digits_val_dec_digits(m);
        let s = int_chars(v as int);
        assert(s[0] == '-');
        assert(s.skip(1) =~= dec_digits(m));
    } else {
        lemma_dec_digits_are_digits(v as nat);
        lemma_digits_val_dec_digits(v as nat);
        lemma_digits_sep_free(dec_digits(v as nat));
        let s = int_chars(v as int);
        assert(s == dec_digits(v as nat));
        assert(s[0] != '-');
    }
}

/// Round trip: every tile key decodes back from its own textual form.
#[verifier::rlimit(100)]
pub proof fn lemma_decode_encode(k: TileKey)
    ensures
        spec_decode(spec_encode(k)) == Ok::<TileKey, TileKeyFromStrError>(k),
{
    let cz = dec_digits(k.zoom as nat);
    let cx = int_chars(k.x as int);
    let cy = int_chars(k.y as int);
    let cmin = dec_digits(k.min_level as nat);
    let cmax = dec_digits(k.max_level as nat);
    let ch = dec_digits(k.health as nat);
    let t5 = ch;
    let t4 = cmax + seq!['_'] + t5;
    let t3 = cmin + seq!['_'] + t4;
    let t2 = cy + seq!['_'] + t3;
    let t1 = cx + seq!['_'] + t2;
    let s = cz + seq!['_'] + t1;

    lemma_dec_digits_are_digits(k.zoom as nat);
    lemma_dec_digits_are_digits(k.min_level as nat);
    lemma_dec_digits_are_digits(k.max_level as nat);
    lemma_dec_digits_are_digits(k.health as nat);
    lemma_digits_sep_free(cz);
    lemma_digits_sep_free(cmin);
    lemma_digits_sep_free(cmax);
    lemma_digits_sep_free(ch);
    lemma_int_chars_sep_free(k.x as int);
    lemma_int_chars_sep_free(k.y as int);

    assert(spec_encode(k) =~= s);
    lemma_chunk_concat(cz, t1);
    lemma_parse_u8_dec(k.zoom);
    lemma_chunk_concat(cx, t2);
    lemma_parse_i64_int(k.x);
    lemma_chunk_concat(cy, t3);
    lemma_parse_i64_int(k.y);
    lemma_chunk_concat(cmin, t4);
    lemma_parse_u8_dec(k.min_level);
    lemma_chunk_concat(cmax, t5);
    lemma_parse_u8_dec(k.max_level);
    lemma_chunk_whole(ch);
    lemma_parse_u8_dec(k.health);
}

/// The encoded keys of the tile at `(x, y)` and of its eight
/// neighbours, the tile itself first.
pub fn tile_keys_around(
    x: i64,
    y: i64,
    zoom: Option<u8>,
    min_level: Option<u8>,
    max_level: Option<u8>,
    health: Option<u8>,
) -> (r: Vec<String>)
    requires
        i64::MIN as int <= x as int - 1,
        x as int + 1 <= i64::MAX as int,
        i64::MIN as int <= y as int - 1,
        y as int + 1 <= i64::MAX as int,
    ensures
        ({
            let k0 = TileKey {
                zoom: opt_or(zoom, DEFAULT_ZOOM),
                x,
                y,
                min_level: opt_or(min_level, 0),
                max_level: opt_or(max_level, DEFAULT_MAX_LEVEL),
                health: opt_or(health, DEFAULT_HEALTH),
            };
            &&& r@.len() == 9
            &&& r@[0]@ == spec_encode(k0)
            &&& r@[1]@ == spec_encode(TileKey { x: (x - 1) as i64, y: (y - 1) as i64, ..k0 })
            &&& r@[2]@ == spec_encode(TileKey { x: (x - 1) as i64, ..k0 })
            &&& r@[3]@ == spec_encode(TileKey { x: (x - 1) as i64, y: (y + 1) as i64, ..k0 })
            &&& r@[4]@ == spec_encode(TileKey { y: (y - 1) as i64, ..k0 })
            &&& r@[5]@ == spec_encode(TileKey { y: (y + 1) as i64, ..k0 })
            &&& r@[6]@ == spec_encode(TileKey { x: (x + 1) as i64, ..k0 })
            &&& r@[7]@ == spec_encode(TileKey { x: (x + 1) as i64, y: (y + 1) as i64, ..k0 })
            &&& r@[8]@ == spec_encode(TileKey { x: (x + 1) as i64, y: (y - 1) as i64, ..k0 })
        }),
{
    let base = TileKey::from_coords(x, y, zoom, min_level, max_level, health);
    let mut r: Vec<String> = Vec::new();
    r.push(base.encode());
    r.push(base.offset(-1, -1).encode());
    r.push(base.offset(-1, 0).encode());
    r.push(base.offset(-1, 1).encode());
    r.push(base.offset(0, -1).encode());
    r.push(base.offset(0, 1).encode());
    r.push(base.offset(1, 0).encode());
    r.push(base.offset(1, 1).encode());
    r.push(base.offset(1, -1).encode());
    r
}

/// The decimal text of a signed value is separator-free.
proof fn lemma_int_chars_sep_free(i: int)
    ensures
        sep_free(int_chars(i)),
{
    if i < 0 {
        lemma_dec_digits_are_digits((-i) as nat);
        lemma_digits_sep_free(dec_digits((-i) as nat));
        let s = int_chars(i);
        assert forall|j: int| 0 <= j < s.len() implies s[j] != '_' by {
            if j >= 1 {
                assert(s[j] == dec_digits((-i) as nat)[j - 1]);
            }
        }
    } else {
        lemma_dec_digits_are_digits(i as nat);
        lemma_digits_sep_free(dec_digits(i as nat));
    }
}

} // verus!

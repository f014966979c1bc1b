//! How a download is cut into ranges, how the pieces are named, and what is
//! done once every piece has come back.
use vstd::prelude::*;

use crate::functions::{text_lt, texts_sorted};
use crate::text::{decimal, digit_char, push_decimal};

verus! {

/// The range of bytes (both ends included) that piece `i` of `quants` asks
/// for: every piece is `file_size / quants` long, and the last one also takes
/// the remainder and ends at `file_size`.
pub open spec fn slice_spec(file_size: int, quants: int, i: int) -> (int, int) {
    let ch = file_size / quants;
    let start = ch * i;
    if i + 1 == quants {
        (start, start + ch + file_size % quants)
    } else {
        (start, start + ch - 1)
    }
}

/// Inputs for which `create_slices` is defined: at least one piece, and no
/// empty piece before the last.
pub open spec fn slices_defined(file_size: int, quants: int) -> bool {
    quants >= 1 && (quants == 1 || file_size >= quants)
}

/// The ranges cover `0..=file_size` without gap or overlap, in order: the
/// first starts at 0, each next one starts right after the one before ends,
/// none is reversed, and the last ends at `file_size`.
pub proof fn lemma_slices_tile(file_size: int, quants: int)
    requires
        0 <= file_size,
        slices_defined(file_size, quants),
    ensures
        slice_spec(file_size, quants, 0).0 == 0,
        slice_spec(file_size, quants, quants - 1).1 == file_size,
        forall|i: int|
            0 <= i < quants ==> #[trigger] slice_spec(file_size, quants, i).0 <= slice_spec(
                file_size,
                quants,
                i,
            ).1 + 1,
        forall|i: int|
            0 <= i < quants - 1 ==> #[trigger] slice_spec(file_size, quants, i + 1).0 == slice_spec(
                file_size,
                quants,
                i,
            ).1 + 1,
{
    let ch = file_size / quants;
    let r = file_size % quants;
    assert(file_size == ch * quants + r) by {
        vstd::arithmetic::div_mod::lemma_fundamental_div_mod(file_size, quants);
    }
    assert(ch * (quants - 1) + ch == ch * quants) by (nonlinear_arith);
    assert(ch >= 0 && r >= 0) by {
        vstd::arithmetic::div_mod::lemma_div_pos_is_pos(file_size, quants);
        vstd::arithmetic::div_mod::lemma_mod_pos_bound(file_size, quants);
    }
    assert forall|i: int| 0 <= i < quants - 1 implies #[trigger] slice_spec(file_size, quants, i + 1).0
        == slice_spec(file_size, quants, i).1 + 1 by {
        assert(ch * (i + 1) == ch * i + ch) by (nonlinear_arith);
    }
}

/// Cuts `0..=file_size` into `quants` ranges for parallel requests.
pub fn create_slices(file_size: usize, quants: usize) -> (r: Vec<(usize, usize)>)
    requires
        slices_defined(file_size as int, quants as int),
    ensures
        r.len() == quants,
        forall|i: int|
            0 <= i < quants ==> (#[trigger] r@[i]).0 == slice_spec(file_size as int, quants as int, i).0
                && r@[i].1 == slice_spec(file_size as int, quants as int, i).1,
{
    let ch_size = file_size / quants;
    let rest = file_size % quants;
    proof {
        vstd::arithmetic::div_mod::lemma_fundamental_div_mod(file_size as int, quants as int);
        assert(ch_size * quants == quants * ch_size) by (nonlinear_arith);
        assert(ch_size * quants + rest == file_size);
    }
    let mut out: Vec<(usize, usize)> = Vec::new();
    let mut idx: usize = 0;
    while idx < quants
        invariant
            idx <= quants,
            slices_defined(file_size as int, quants as int),
            ch_size == file_size / quants,
            rest == file_size % quants,
            ch_size * quants + rest == file_size,
            out.len() == idx,
            forall|i: int|
                0 <= i < idx ==> (#[trigger] out@[i]).0 == slice_spec(file_size as int, quants as int, i).0
                    && out@[i].1 == slice_spec(file_size as int, quants as int, i).1,
        decreases quants - idx,
    {
        assert(ch_size * idx <= ch_size * quants) by (nonlinear_arith)
            requires
                idx <= quants,
        ;
        assert(ch_size * (idx + 1) <= ch_size * quants) by (nonlinear_arith)
            requires
                idx < quants,
        ;
        assert(ch_size * (idx + 1) == ch_size * idx + ch_size) by (nonlinear_arith);
        let start = ch_size * idx;
        let end = if idx + 1 == quants {
            start + ch_size + rest
        } else {
            assert(ch_size >= 1) by {
                vstd::arithmetic::div_mod::lemma_div_is_ordered(quants as int, file_size as int, quants as int);
                vstd::arithmetic::div_mod::lemma_div_by_self(quants as int);
            }
            start + ch_size - 1
        };
        out.push((start, end));
        idx += 1;
    }
    out
}

/// `n` written with at least two digits, as `{:02}` writes it.
pub open spec fn pad2(n: nat) -> Seq<char> {
    if n < 10 {
        seq!['0'] + decimal(n)
    } else {
        decimal(n)
    }
}

/// `"_temp_file.temp"`
pub open spec fn piece_suffix() -> Seq<char> {
    seq!['_', 't', 'e', 'm', 'p', '_', 'f', 'i', 'l', 'e', '.', 't', 'e', 'm', 'p']
}

/// The file name under which piece `idx` is kept until the pieces are joined.
pub open spec fn chunk_name_spec(idx: nat) -> Seq<char> {
    pad2(idx) + piece_suffix()
}

/// The file name of piece `idx`: its number with two digits, then `_temp_file.temp`.
pub fn chunk_file_name(idx: usize) -> (r: String)
    ensures
        r@ == chunk_name_spec(idx as nat),
{
    let mut r = String::new();
    if idx < 10 {
        r.push('0');
    }
    push_decimal(&mut r, idx);
    let suffix = "_temp_file.temp";
    proof {
        reveal_strlit("_temp_file.temp");
        assert(suffix@ =~= piece_suffix());
    }
    r.append(suffix);
    proof {
        if idx < 10 {
            assert(r@ =~= chunk_name_spec(idx as nat));
        } else {
            assert(r@ =~= chunk_name_spec(idx as nat));
        }
    }
    r
}

/// Where piece `idx` is kept: its file name inside `temp_dir`.
pub fn chunk_path(temp_dir: &str, idx: usize) -> (r: String)
    ensures
        r@ == temp_dir@ + seq!['/'] + chunk_name_spec(idx as nat),
{
    let mut r = String::from_str(temp_dir);
    r.push('/');
    let name = chunk_file_name(idx);
    r.append(name.as_str());
    proof {
        assert(r@ =~= temp_dir@ + seq!['/'] + chunk_name_spec(idx as nat));
    }
    r
}

/// Two digits below a hundred.
proof fn lemma_pad2_digits(n: nat)
    requires
        n < 100,
    ensures
        pad2(n) == seq![digit_char(n / 10), digit_char(n % 10)],
{
    if n < 10 {
        assert(decimal(n) == seq![digit_char(n)]);
        assert(n / 10 == 0 && n % 10 == n);
        assert(pad2(n) =~= seq![digit_char(n / 10), digit_char(n % 10)]);
    } else {
        assert(decimal(n) == decimal(n / 10).push(digit_char(n % 10)));
        assert(n / 10 < 10);
        assert(decimal(n / 10) == seq![digit_char(n / 10)]);
        assert(pad2(n) =~= seq![digit_char(n / 10), digit_char(n % 10)]);
    }
}

/// Pieces below a hundred are named in the order of their numbers, so sorting
/// their names (as the pieces are joined) puts them back in download order.
pub proof fn lemma_chunk_names_ordered(i: nat, j: nat)
    requires
        i < j < 100,
    ensures
        text_lt(chunk_name_spec(i), chunk_name_spec(j)),
{
    lemma_pad2_digits(i);
    lemma_pad2_digits(j);
    let a = chunk_name_spec(i);
    let b = chunk_name_spec(j);
    assert(a[0] == digit_char(i / 10) && b[0] == digit_char(j / 10));
    assert(a[1] == digit_char(i % 10) && b[1] == digit_char(j % 10));
    assert(a.drop_first()[0] == a[1] && b.drop_first()[0] == b[1]);
    assert(digit_char(i / 10) as u32 == 48 + i / 10);
    assert(digit_char(j / 10) as u32 == 48 + j / 10);
    assert(digit_char(i % 10) as u32 == 48 + i % 10);
    assert(digit_char(j % 10) as u32 == 48 + j % 10);
    if i / 10 == j / 10 {
        assert(i % 10 < j % 10);
        assert(a[0] == b[0]);
        assert(a.drop_first()[0] != b.drop_first()[0]);
        assert(text_lt(a.drop_first(), b.drop_first()));
        assert(text_lt(a, b) == text_lt(a.drop_first(), b.drop_first()));
    } else {
        assert(i / 10 < j / 10);
        assert(a[0] != b[0]);
    }
}

/// A strictly increasing map of `0..n` into itself never falls below its argument.
proof fn lemma_increasing_lower(f: spec_fn(int) -> int, n: int, i: int)
    requires
        0 <= i < n,
        forall|a: int, b: int| 0 <= a < b < n ==> #[trigger] f(a) < #[trigger] f(b),
        forall|a: int| 0 <= a < n ==> 0 <= #[trigger] f(a) < n,
    ensures
        f(i) >= i,
    decreases i,
{
    if i > 0 {
        lemma_increasing_lower(f, n, i - 1);
        assert(f(i - 1) < f(i));
    }
}

/// A strictly increasing map of `0..n` into itself never rises above its argument.
proof fn lemma_increasing_upper(f: spec_fn(int) -> int, n: int, i: int)
    requires
        0 <= i < n,
        forall|a: int, b: int| 0 <= a < b < n ==> #[trigger] f(a) < #[trigger] f(b),
        forall|a: int| 0 <= a < n ==> 0 <= #[trigger] f(a) < n,
    ensures
        f(i) <= i,
    decreases n - i,
{
    if i < n - 1 {
        lemma_increasing_upper(f, n, i + 1);
        assert(f(i) < f(i + 1));
    }
}

/// Joining pieces in the order of their sorted names joins them in download
/// order: when the names of pieces `0..n` (fewer than a hundred and one),
/// each once, are sorted, the name at each place is that of the piece with
/// that number.
pub proof fn lemma_joined_in_piece_order(r: Seq<String>, n: nat)
    requires
        n <= 100,
        r.len() == n,
        texts_sorted(r),
        forall|i: int|
            #![trigger r[i]]
            0 <= i < n ==> exists|m: nat| #![trigger chunk_name_spec(m)] m < n && r[i]@ == chunk_name_spec(m),
        forall|i: int, j: int| 0 <= i < j < n ==> r[i]@ != r[j]@,
    ensures
        forall|i: int| 0 <= i < n ==> #[trigger] r[i]@ == chunk_name_spec(i as nat),
{
    let f = |i: int| (choose|m: nat| m < n && r[i]@ == chunk_name_spec(m)) as int;
    assert forall|a: int| 0 <= a < n implies 0 <= #[trigger] f(a) < n && r[a]@ == chunk_name_spec(
        f(a) as nat,
    ) by {
        let m = choose|m: nat| m < n && r[a]@ == chunk_name_spec(m);
        assert(m < n && r[a]@ == chunk_name_spec(m));
    }
    assert forall|a: int, b: int| 0 <= a < b < n implies #[trigger] f(a) < #[trigger] f(b) by {
        assert(0 <= f(a) < n && r[a]@ == chunk_name_spec(f(a) as nat));
        assert(0 <= f(b) < n && r[b]@ == chunk_name_spec(f(b) as nat));
        assert(r[a]@ != r[b]@);
        if f(b) < f(a) {
            lemma_chunk_names_ordered(f(b) as nat, f(a) as nat);
            assert(!text_lt(r[b]@, r[a]@));
        }
    }
    assert forall|i: int| 0 <= i < n implies #[trigger] r[i]@ == chunk_name_spec(i as nat) by {
        lemma_increasing_lower(f, n as int, i);
        lemma_increasing_upper(f, n as int, i);
        assert(r[i]@ == chunk_name_spec(f(i) as nat));
    }
}

/// What a piece's transfer tells the count of received bytes.
#[derive(Debug, Clone, Copy, PartialEq, Eq)]
pub enum PieceEvent {
    /// This many more bytes arrived.
    Received(usize),
    /// The piece's request failed.
    Failed,
}

/// The count of received bytes after an event: bytes that arrive while the
/// download is not stopped are added, those after a stop are not, and a
/// failed piece resets the count to zero, so that nothing is joined.
pub fn count_after(count: usize, stopped: bool, event: PieceEvent) -> (r: usize)
    requires
        !stopped ==> (event matches PieceEvent::Received(n) ==> count + n <= usize::MAX),
    ensures
        r == (match event {
            PieceEvent::Received(n) => if stopped {
                count as int
            } else {
                count + n
            },
            PieceEvent::Failed => 0,
        }),
{
    match event {
        PieceEvent::Received(n) => if stopped {
            count
        } else {
            count + n
        },
        PieceEvent::Failed => 0,
    }
}

/// What happens once every piece has come back.
#[derive(Debug, Clone, Copy, PartialEq, Eq)]
pub enum Outcome {
    /// Join the pieces into the final file.
    Assemble,
    /// Nothing was received: nothing is joined and nothing is reported.
    Nothing,
    /// The user stopped the download: report it.
    Stopped,
}

/// The decision at the end of a download: a stop wins; otherwise the pieces
/// are joined when any byte was counted.
pub fn outcome(stopped: bool, downloaded: usize) -> (r: Outcome)
    ensures
        r == (if stopped {
            Outcome::Stopped
        } else if downloaded > 0 {
            Outcome::Assemble
        } else {
            Outcome::Nothing
        }),
{
    if !stopped {
        if downloaded > 0 {
            Outcome::Assemble
        } else {
            Outcome::Nothing
        }
    } else {
        Outcome::Stopped
    }
}

} // verus!

use vstd::prelude::*;
use vstd::string::*;

use crate::hex::{decode_line, hex_string_to_array, is_space, is_space_char};
use crate::{PatchError, PatchFault};

verus! {

/// Index of the first `#` in `s`, or its length if there is none.
pub open spec fn first_hash(s: Seq<char>) -> nat
    decreases s.len(),
{
    if s.len() == 0 || s[0] == '#' {
        0
    } else {
        1 + first_hash(s.drop_first())
    }
}

/// Number of white-space characters at the start of `s`.
pub open spec fn leading_spaces(s: Seq<char>) -> nat
    decreases s.len(),
{
    if s.len() > 0 && is_space(s[0]) {
        1 + leading_spaces(s.drop_first())
    } else {
        0
    }
}

/// Number of white-space characters at the end of `s`.
pub open spec fn trailing_spaces(s: Seq<char>) -> nat
    decreases s.len(),
{
    if s.len() > 0 && is_space(s.last()) {
        1 + trailing_spaces(s.drop_last())
    } else {
        0
    }
}

/// `s` without white space at either end.
pub open spec fn trim(s: Seq<char>) -> Seq<char> {
    if leading_spaces(s) >= s.len() {
        seq![]
    } else {
        s.subrange(leading_spaces(s) as int, s.len() - trailing_spaces(s))
    }
}

/// A line of a specification with its comment cut off and its ends trimmed.
pub open spec fn clean(s: Seq<char>) -> Seq<char> {
    trim(s.take(first_hash(s) as int))
}

proof fn lemma_first_hash(s: Seq<char>, h: int)
    requires
        0 <= h <= s.len(),
        forall|j: int| 0 <= j < h ==> s[j] != '#',
        h == s.len() || s[h] == '#',
    ensures
        first_hash(s) == h,
    decreases h,
{
    if h > 0 {
        lemma_first_hash(s.drop_first(), h - 1);
    }
}

proof fn lemma_leading_skip(s: Seq<char>, a: int)
    requires
        0 <= a <= s.len(),
        forall|j: int| 0 <= j < a ==> is_space(#[trigger] s[j]),
    ensures
        leading_spaces(s) == a + leading_spaces(s.skip(a)),
    decreases a,
{
    if a > 0 {
        assert(is_space(s[0]));
        assert forall|j: int| 0 <= j < a - 1 implies is_space(#[trigger] s.drop_first()[j]) by {
            assert(s.drop_first()[j] == s[j + 1]);
        }
        lemma_leading_skip(s.drop_first(), a - 1);
        assert(s.drop_first().skip(a - 1) =~= s.skip(a));
    } else {
        assert(s.skip(0) =~= s);
    }
}

proof fn lemma_trailing_take(s: Seq<char>, b: int)
    requires
        0 <= b <= s.len(),
        forall|j: int| b <= j < s.len() ==> is_space(#[trigger] s[j]),
    ensures
        trailing_spaces(s) == (s.len() - b) + trailing_spaces(s.take(b)),
    decreases s.len() - b,
{
    if b < s.len() {
        lemma_trailing_take(s.drop_last(), b);
        assert(s.drop_last().take(b) =~= s.take(b));
    } else {
        assert(s.take(b) =~= s);
    }
}

/// Cuts a line at its first `#` and trims white space from both ends of what is left.
pub fn clean_string(line: &str) -> (r: String)
    ensures
        r@ == clean(line@),
{
    let n = line.unicode_len();
    let mut h: usize = 0;
    while h < n && line.get_char(h) != '#'
        invariant
            h <= n,
            n == line@.len(),
            forall|j: int| 0 <= j < h ==> line@[j] != '#',
        decreases n - h,
    {
        h = h + 1;
    }
    proof {
        lemma_first_hash(line@, h as int);
    }
    let ghost s = line@.take(h as int);
    let mut a: usize = 0;
    while a < h && is_space_char(line.get_char(a))
        invariant
            a <= h <= n,
            n == line@.len(),
            s == line@.take(h as int),
            forall|j: int| 0 <= j < a ==> is_space(#[trigger] s[j]),
        decreases h - a,
    {
        a = a + 1;
    }
    proof {
        lemma_leading_skip(s, a as int);
    }
    if a == h {
        return String::new();
    }
    assert(leading_spaces(s) == a) by {
        assert(!is_space(s.skip(a as int)[0]));
    }
    let mut b: usize = h;
    while b > a + 1 && is_space_char(line.get_char(b - 1))
        invariant
            a < b <= h <= n,
            n == line@.len(),
            s == line@.take(h as int),
            forall|j: int| b <= j < h ==> is_space(#[trigger] s[j]),
        decreases b,
    {
        b = b - 1;
    }
    proof {
        lemma_trailing_take(s, b as int);
        assert(!is_space(s.take(b as int).last()));
        assert(s.subrange(a as int, b as int) =~= line@.subrange(a as int, b as int));
    }
    String::from_str(line.substring_char(a, b))
}

/// Where grouping lines into blocks stands after some of the lines: the finished blocks,
/// the lines of the open block, and the error met, if any.
pub struct BlockScan {
    pub blocks: Seq<Seq<Seq<char>>>,
    pub current: Seq<Seq<char>>,
    pub failure: Option<PatchFault>,
}

/// Closes the open block at a separator or at the end of the text.
pub open spec fn close_block(st: BlockScan) -> BlockScan {
    if st.current.len() == 0 {
        st
    } else if st.current.len() == 1 {
        BlockScan { failure: Some(PatchFault::InsufficientLines(st.blocks.len() + 1)), ..st }
    } else if st.current.len() > 2 {
        BlockScan { failure: Some(PatchFault::TooManyLines(st.blocks.len() + 1)), ..st }
    } else {
        BlockScan { blocks: st.blocks.push(st.current), current: seq![], failure: None }
    }
}

/// One cleaned line read: an empty line closes the open block, another joins it.
pub open spec fn scan_step(st: BlockScan, line: Seq<char>) -> BlockScan {
    if st.failure is Some {
        st
    } else if line.len() == 0 {
        close_block(st)
    } else {
        BlockScan { current: st.current.push(line), ..st }
    }
}

/// The scan over cleaned lines, in order.
pub open spec fn scan_lines(lines: Seq<Seq<char>>) -> BlockScan
    decreases lines.len(),
{
    if lines.len() == 0 {
        BlockScan { blocks: seq![], current: seq![], failure: None }
    } else {
        scan_step(scan_lines(lines.drop_last()), lines.last())
    }
}

/// The lines of a specification, each cleaned.
pub open spec fn cleaned(lines: Seq<Seq<char>>) -> Seq<Seq<char>> {
    lines.map_values(|l: Seq<char>| clean(l))
}

/// The two-line blocks of a specification, or the error of the first block that has one
/// line or more than two.
pub open spec fn blocks_of(lines: Seq<Seq<char>>) -> Result<Seq<Seq<Seq<char>>>, PatchFault> {
    let st = scan_lines(cleaned(lines));
    let end = if st.failure is Some {
        st
    } else {
        close_block(st)
    };
    match end.failure {
        Some(e) => Err(e),
        None => Ok(end.blocks),
    }
}

proof fn lemma_scan_failure_sticks(lines: Seq<Seq<char>>, k: int)
    requires
        0 <= k <= lines.len(),
        scan_lines(lines.take(k)).failure is Some,
    ensures
        scan_lines(lines) == scan_lines(lines.take(k)),
    decreases lines.len() - k,
{
    if k < lines.len() {
        assert(lines.take(k + 1).drop_last() =~= lines.take(k));
        lemma_scan_failure_sticks(lines, k + 1);
    } else {
        assert(lines.take(k) =~= lines);
    }
}

/// Groups the lines of a specification into blocks of two cleaned lines each, separated by
/// lines that are empty once cleaned. A block of one line, or of more than two, is an error
/// that names the block.
#[verifier::rlimit(40)]
pub fn read_blocks(lines: &Vec<String>) -> (r: Result<Vec<Vec<String>>, PatchError>)
    ensures
        match r {
            Ok(b) => blocks_of(lines.deep_view()) == Ok::<Seq<Seq<Seq<char>>>, PatchFault>(
                b.deep_view(),
            ),
            Err(e) => blocks_of(lines.deep_view()) == Err::<Seq<Seq<Seq<char>>>, PatchFault>(e@),
        },
{
    let ghost cl = cleaned(lines.deep_view());
    let mut blocks: Vec<Vec<String>> = Vec::new();
    let mut current: Vec<String> = Vec::new();
    let mut count: usize = 1;
    let mut i: usize = 0;
    assert(cl.take(0) =~= seq![]);
    assert(blocks.deep_view() =~= seq![]);
    assert(current.deep_view() =~= seq![]);
    while i < lines.len()
        invariant
            cl == cleaned(lines.deep_view()),
            i <= lines.len(),
            scan_lines(cl.take(i as int)) == (BlockScan {
                blocks: blocks.deep_view(),
                current: current.deep_view(),
                failure: None,
            }),
            count == blocks.len() + 1,
            2 * blocks.len() + current.len() <= i,
        decreases lines.len() - i,
    {
        let line = clean_string(lines[i].as_str());
        assert(line@ == cl[i as int]);
        assert(cl.take(i + 1).drop_last() =~= cl.take(i as int));
        assert(cl.take(i + 1).last() == cl[i as int]);
        if line.unicode_len() == 0 {
            if current.len() > 0 {
                if current.len() == 1 {
                    proof {
                        lemma_scan_failure_sticks(cl, i + 1);
                    }
                    return Err(PatchError::InsufficientLines(count));
                }
                if current.len() > 2 {
                    proof {
                        lemma_scan_failure_sticks(cl, i + 1);
                    }
                    return Err(PatchError::TooManyLines(count));
                }
                let ghost before = blocks.deep_view();
                let ghost cur = current.deep_view();
                blocks.push(current);
                assert(blocks.deep_view() =~= before.push(cur));
                current = Vec::new();
                assert(current.deep_view() =~= seq![]);
                count = count + 1;
            }
        } else {
            let ghost before = current.deep_view();
            current.push(line);
            assert(current.deep_view() =~= before.push(cl[i as int]));
        }
        i = i + 1;
    }
    assert(cl.take(i as int) =~= cl);
    if current.len() == 1 {
        return Err(PatchError::InsufficientLines(count));
    }
    if current.len() > 2 {
        return Err(PatchError::TooManyLines(count));
    }
    if current.len() == 2 {
        let ghost before = blocks.deep_view();
        let ghost cur = current.deep_view();
        blocks.push(current);
        assert(blocks.deep_view() =~= before.push(cur));
    }
    Ok(blocks)
}

proof fn lemma_scan_blocks_are_pairs(lines: Seq<Seq<char>>)
    ensures
        forall|k: int|
            0 <= k < scan_lines(lines).blocks.len() ==> (#[trigger] scan_lines(lines).blocks[k]).len()
                == 2,
    decreases lines.len(),
{
    if lines.len() > 0 {
        lemma_scan_blocks_are_pairs(lines.drop_last());
    }
}

proof fn lemma_blocks_are_pairs(lines: Seq<Seq<char>>)
    requires
        blocks_of(lines) is Ok,
    ensures
        forall|k: int|
            0 <= k < blocks_of(lines)->Ok_0.len() ==> (#[trigger] blocks_of(lines)->Ok_0[k]).len()
                == 2,
{
    lemma_scan_blocks_are_pairs(cleaned(lines));
}

/// A pattern and the replacement, of the same width `W`, that overwrites it.
pub struct Patch<const W: usize> {
    pub pattern: [u8; W],
    pub replacement: [u8; W],
}

/// The pattern and replacement that two hex lines stand for, or the first error met in
/// decoding the pattern line, then the replacement line.
pub open spec fn patch_of(old: Seq<char>, new: Seq<char>, w: nat) -> Result<
    (Seq<u8>, Seq<u8>),
    PatchFault,
> {
    match decode_line(old, w) {
        Err(e) => Err(e),
        Ok(a) => match decode_line(new, w) {
            Err(e) => Err(e),
            Ok(b) => Ok((a, b)),
        },
    }
}

/// The patches that the blocks stand for, in order, or the error of the first block that
/// does not decode.
pub open spec fn decode_blocks(bs: Seq<Seq<Seq<char>>>, w: nat) -> Result<
    Seq<(Seq<u8>, Seq<u8>)>,
    PatchFault,
>
    decreases bs.len(),
{
    if bs.len() == 0 {
        Ok(seq![])
    } else {
        match decode_blocks(bs.drop_last(), w) {
            Err(e) => Err(e),
            Ok(ps) => match patch_of(bs.last()[0], bs.last()[1], w) {
                Err(e) => Err(e),
                Ok(p) => Ok(ps.push(p)),
            },
        }
    }
}

/// The patches that the lines of a specification stand for: the blocks are checked first,
/// then decoded in order.
pub open spec fn patches_of(lines: Seq<Seq<char>>, w: nat) -> Result<
    Seq<(Seq<u8>, Seq<u8>)>,
    PatchFault,
> {
    match blocks_of(lines) {
        Err(e) => Err(e),
        Ok(bs) => decode_blocks(bs, w),
    }
}

proof fn lemma_decode_blocks_err_extends(bs: Seq<Seq<Seq<char>>>, w: nat, k: int)
    requires
        0 <= k <= bs.len(),
        decode_blocks(bs.take(k), w) is Err,
    ensures
        decode_blocks(bs, w) == decode_blocks(bs.take(k), w),
    decreases bs.len() - k,
{
    if k < bs.len() {
        assert(bs.take(k + 1).drop_last() =~= bs.take(k));
        lemma_decode_blocks_err_extends(bs, w, k + 1);
    } else {
        assert(bs.take(k) =~= bs);
    }
}

impl<const W: usize> Patch<W> {
    /// Decodes a pattern line and a replacement line into a patch.
    pub fn new(old_str: &str, new_str: &str) -> (r: Result<Patch<W>, PatchError>)
        ensures
            match r {
                Ok(p) => patch_of(old_str@, new_str@, W as nat) == Ok::<
                    (Seq<u8>, Seq<u8>),
                    PatchFault,
                >((p.pattern@, p.replacement@)),
                Err(e) => patch_of(old_str@, new_str@, W as nat) == Err::<
                    (Seq<u8>, Seq<u8>),
                    PatchFault,
                >(e@),
            },
    {
        let pattern = match hex_string_to_array::<W>(old_str) {
            Ok(a) => a,
            Err(e) => return Err(e),
        };
        let replacement = match hex_string_to_array::<W>(new_str) {
            Ok(a) => a,
            Err(e) => return Err(e),
        };
        Ok(Patch { pattern, replacement })
    }

    /// A patch from its two byte arrays.
    pub fn from_bytes(pattern: [u8; W], replacement: [u8; W]) -> (r: Patch<W>)
        ensures
            r.pattern@ == pattern@,
            r.replacement@ == replacement@,
    {
        Patch { pattern, replacement }
    }
}

/// Patches in the order in which they are applied.
pub struct Patches<const W: usize> {
    pub patches: Vec<Patch<W>>,
}

impl<const W: usize> View for Patches<W> {
    type V = Seq<(Seq<u8>, Seq<u8>)>;

    open spec fn view(&self) -> Seq<(Seq<u8>, Seq<u8>)> {
        self.patches@.map_values(|p: Patch<W>| (p.pattern@, p.replacement@))
    }
}

impl<const W: usize> Patches<W> {
    /// Reads the patches that the lines of a specification describe.
    pub fn new(lines: &Vec<String>) -> (r: Result<Patches<W>, PatchError>)
        ensures
            match r {
                Ok(ps) => patches_of(lines.deep_view(), W as nat) == Ok::<
                    Seq<(Seq<u8>, Seq<u8>)>,
                    PatchFault,
                >(ps@),
                Err(e) => patches_of(lines.deep_view(), W as nat) == Err::<
                    Seq<(Seq<u8>, Seq<u8>)>,
                    PatchFault,
                >(e@),
            },
    {
        let blocks = match read_blocks(lines) {
            Ok(b) => b,
            Err(e) => return Err(e),
        };
        let ghost bs = blocks.deep_view();
        proof {
            lemma_blocks_are_pairs(lines.deep_view());
        }
        let mut patches: Vec<Patch<W>> = Vec::new();
        let mut i: usize = 0;
        assert(bs.take(0) =~= seq![]);
        assert((Patches { patches })@ =~= seq![]);
        while i < blocks.len()
            invariant
                bs == blocks.deep_view(),
                blocks_of(lines.deep_view()) == Ok::<Seq<Seq<Seq<char>>>, PatchFault>(bs),
                forall|k: int| 0 <= k < bs.len() ==> (#[trigger] bs[k]).len() == 2,
                i <= blocks.len(),
                decode_blocks(bs.take(i as int), W as nat) == Ok::<
                    Seq<(Seq<u8>, Seq<u8>)>,
                    PatchFault,
                >((Patches { patches })@),
            decreases blocks.len() - i,
        {
            assert(bs.take(i + 1).drop_last() =~= bs.take(i as int));
            assert(bs[i as int].len() == 2);
            let block = &blocks[i];
            assert(block.deep_view() == bs[i as int]);
            assert(block[0]@ == bs[i as int][0]);
            assert(block[1]@ == bs[i as int][1]);
            match Patch::<W>::new(block[0].as_str(), block[1].as_str()) {
                Ok(p) => {
                    let ghost before = (Patches { patches })@;
                    patches.push(p);
                    assert((Patches { patches })@ =~= before.push((p.pattern@, p.replacement@)));
                },
                Err(e) => {
                    proof {
                        lemma_decode_blocks_err_extends(bs, W as nat, i + 1);
                    }
                    return Err(e);
                },
            }
            i = i + 1;
        }
        assert(bs.take(i as int) =~= bs);
        Ok(Patches { patches })
    }
}

proof fn lemma_scan_failure_kind(lines: Seq<Seq<char>>)
    ensures
        scan_lines(lines).failure matches Some(e) ==> (e is InsufficientLines || e is TooManyLines),
    decreases lines.len(),
{
    if lines.len() > 0 {
        lemma_scan_failure_kind(lines.drop_last());
    }
}

proof fn lemma_scan_block_start(lines: Seq<Seq<char>>, i: int)
    requires
        0 <= i <= lines.len(),
        i == 0 || lines[i - 1].len() == 0,
    ensures
        scan_lines(lines.take(i)).failure is Some || scan_lines(lines.take(i)).current.len() == 0,
{
    if i > 0 {
        assert(lines.take(i).drop_last() =~= lines.take(i - 1));
    }
}

proof fn lemma_scan_block_grows(lines: Seq<Seq<char>>, i: int, k: int)
    requires
        0 <= i <= k <= lines.len(),
        i == 0 || lines[i - 1].len() == 0,
        forall|t: int| i <= t < k ==> (#[trigger] lines[t]).len() > 0,
    ensures
        scan_lines(lines.take(k)).failure is Some || scan_lines(lines.take(k)).current.len() == k
            - i,
        scan_lines(lines.take(i)).failure is None ==> scan_lines(lines.take(k)).failure is None
            && scan_lines(lines.take(k)).blocks == scan_lines(lines.take(i)).blocks,
    decreases k - i,
{
    if k == i {
        lemma_scan_block_start(lines, i);
    } else {
        lemma_scan_block_grows(lines, i, k - 1);
        assert(lines.take(k).drop_last() =~= lines.take(k - 1));
        assert(lines.take(k).last() == lines[k - 1]);
    }
}

/// A block of one line, or of more than two, makes reading the specification fail with a
/// line-count error, whatever the rest of the text holds: no patches come out. Where no block
/// before it failed, the error is the one of this block, under its own number.
pub proof fn lemma_malformed_block_fails(lines: Seq<Seq<char>>, w: nat, i: int, j: int)
    requires
        0 <= i < j <= lines.len(),
        j - i != 2,
        forall|t: int| i <= t < j ==> (#[trigger] cleaned(lines)[t]).len() > 0,
        i == 0 || cleaned(lines)[i - 1].len() == 0,
        j == lines.len() || cleaned(lines)[j].len() == 0,
    ensures
        patches_of(lines, w) matches Err(e) && (e is InsufficientLines || e is TooManyLines),
        scan_lines(cleaned(lines).take(i)).failure is None ==> patches_of(lines, w) == Err::<
            Seq<(Seq<u8>, Seq<u8>)>,
            PatchFault,
        >(
            if j - i == 1 {
                PatchFault::InsufficientLines(scan_lines(cleaned(lines).take(i)).blocks.len() + 1)
            } else {
                PatchFault::TooManyLines(scan_lines(cleaned(lines).take(i)).blocks.len() + 1)
            },
        ),
{
    let cl = cleaned(lines);
    lemma_scan_block_grows(cl, i, j);
    lemma_scan_failure_kind(cl);
    let st = scan_lines(cl.take(j));
    if st.failure is Some {
        lemma_scan_failure_sticks(cl, j);
    } else if j == lines.len() {
        assert(cl.take(j) =~= cl);
    } else {
        assert(cl.take(j + 1).drop_last() =~= cl.take(j));
        assert(cl.take(j + 1).last() == cl[j]);
        lemma_scan_failure_sticks(cl, j + 1);
    }
}

} // verus!

//! RDS, the data channel of FM broadcasting on the 57 kHz subcarrier.
//!
//! The stream is cut into 26-bit blocks: 16 bits of data and 10 check bits. The check bits are a
//! CRC with an "offset word" added, and the offset word tells which place in its group of four a
//! block has. So one computation both finds errors and locates the blocks, and frames are found
//! by trying which offset fits.
use vstd::prelude::*;

verus! {

/// The generator polynomial of the check bits: x^10 + x^8 + x^7 + x^5 + x^4 + x^3 + 1.
pub const RDS_POLY: u32 = 0b101_1011_1001;

/// Offset word of block A.
pub const OFFSET_A: u16 = 0b00_1111_1100;

/// Offset word of block B.
pub const OFFSET_B: u16 = 0b01_1001_1000;

/// Offset word of block C.
pub const OFFSET_C: u16 = 0b01_0110_1000;

/// Offset word that stands in block C of groups of version B.
pub const OFFSET_CP: u16 = 0b11_0101_0000;

/// Offset word of block D.
pub const OFFSET_D: u16 = 0b01_1011_0100;

/// The product of the generator polynomial and `q`, over GF(2): one shifted copy of `q` for each
/// power of x in the generator.
pub open spec fn times_generator(q: u32) -> u32 {
    (q << 10) ^ (q << 8) ^ (q << 7) ^ (q << 5) ^ (q << 4) ^ (q << 3) ^ q
}

/// `r` is what is left of `word * x^10` after division by the generator: it has fewer than ten
/// bits, and it differs from `word * x^10` by a multiple of the generator.
pub open spec fn is_check_word(word: u16, r: u16) -> bool {
    &&& r < 0x400
    &&& exists|q: u32|
        q < 0x1_0000 && #[trigger] times_generator(q) == ((word as u32) << 10) ^ (r as u32)
}

/// The check word of `word`.
pub open spec fn check_word(word: u16) -> u16 {
    choose|r: u16| is_check_word(word, r)
}

/// The data bits of a block.
pub open spec fn block_data(block: u32) -> u16 {
    ((block >> 10) & 0xFFFF) as u16
}

/// The check bits of a block.
pub open spec fn block_check(block: u32) -> u16 {
    (block & 0x3FF) as u16
}

/// The block that carries `word` at the place of `offset`.
pub open spec fn block_of(word: u16, offset: u16) -> u32 {
    ((word as u32) << 10) | ((check_word(word) ^ offset) as u32)
}

/// What a block says when it is expected at the place of `offset`.
pub open spec fn block_value(block: u32, offset: u16) -> Option<u16> {
    if block_check(block) ^ offset == check_word(block_data(block)) {
        Some(block_data(block))
    } else {
        None
    }
}

proof fn lemma_generator_step(q: u32, k: u32)
    by (bit_vector)
    requires
        k < 16,
        q < 0x1_0000,
    ensures
        times_generator(q ^ (1u32 << k)) == times_generator(q) ^ (0b101_1011_1001u32 << k),
        q ^ (1u32 << k) < 0x1_0000,
{
}

proof fn lemma_generator_linear(p: u32, q: u32)
    by (bit_vector)
    requires
        p < 0x1_0000,
        q < 0x1_0000,
    ensures
        times_generator(p ^ q) == times_generator(p) ^ times_generator(q),
        p ^ q < 0x1_0000,
{
}

/// A multiple of the generator that fits in ten bits is zero.
proof fn lemma_short_multiple(q: u32)
    by (bit_vector)
    requires
        q < 0x1_0000,
        times_generator(q) < 0x400,
    ensures
        q == 0,
        times_generator(q) == 0,
{
}

/// A word has one check word only.
pub proof fn law_check_word_unique(word: u16, r: u16)
    requires
        is_check_word(word, r),
    ensures
        r == check_word(word),
        is_check_word(word, check_word(word)),
{
    let s = check_word(word);
    assert(is_check_word(word, s));
    let p = choose|q: u32|
        q < 0x1_0000 && #[trigger] times_generator(q) == ((word as u32) << 10) ^ (r as u32);
    let q = choose|q: u32|
        q < 0x1_0000 && #[trigger] times_generator(q) == ((word as u32) << 10) ^ (s as u32);
    lemma_generator_linear(p, q);
    let a = times_generator(p);
    let b = times_generator(q);
    let w = word as u32;
    let r32 = r as u32;
    let s32 = s as u32;
    assert(a ^ b == r32 ^ s32 && r32 ^ s32 < 0x400) by (bit_vector)
        requires
            a == (w << 10) ^ r32,
            b == (w << 10) ^ s32,
            r32 < 0x400,
            s32 < 0x400,
    ;
    lemma_short_multiple(p ^ q);
    assert(r32 == s32) by (bit_vector)
        requires
            r32 ^ s32 == 0,
    ;
}

/// Every word has a check word: the quotient of the division is built bit by bit from the top.
proof fn lemma_has_check_word(word: u16)
    ensures
        is_check_word(word, check_word(word)),
{
    lemma_division_start(word);
    lemma_division(word, 26, (word as u32) << 10, 0);
}

proof fn lemma_block_parts(word: u16, offset: u16)
    requires
        offset < 0x400,
    ensures
        block_of(word, offset) < 0x400_0000,
        block_data(block_of(word, offset)) == word,
        block_check(block_of(word, offset)) == check_word(word) ^ offset,
{
    lemma_has_check_word(word);
    let c = check_word(word);
    let b = block_of(word, offset);
    assert(b < 0x400_0000 && ((b >> 10) & 0xFFFF) as u16 == word && (b & 0x3FF) as u16 == c
        ^ offset) by (bit_vector)
        requires
            b == ((word as u32) << 10) | ((c ^ offset) as u32),
            c < 0x400,
            offset < 0x400,
    ;
}

/// One step of the division: the generator is taken away at bit `i` where that bit is set.
spec fn division_step(reg: u32, i: u32) -> u32 {
    if reg & (1u32 << i) != 0 {
        reg ^ (0b101_1011_1001u32 << ((i - 10) as u32))
    } else {
        reg
    }
}

proof fn lemma_division_step(word: u16, i: u32, reg: u32, q: u32) -> (quotient: u32)
    requires
        10 <= i < 26,
        q < 0x1_0000,
        times_generator(q) == reg ^ ((word as u32) << 10),
        reg < 1u32 << ((i + 1) as u32),
    ensures
        quotient < 0x1_0000,
        times_generator(quotient) == division_step(reg, i) ^ ((word as u32) << 10),
        division_step(reg, i) < 1u32 << i,
{
    let k = (i - 10) as u32;
    lemma_generator_step(q, k);
    let t = times_generator(q);
    let w = word as u32;
    let g = 0b101_1011_1001u32 << k;
    let j = (i + 1) as u32;
    assert(reg & (1u32 << i) != 0 ==> t ^ g == (reg ^ g) ^ (w << 10) && reg ^ g < 1u32 << i)
        by (bit_vector)
        requires
            k == i - 10,
            j == i + 1,
            10 <= i < 26,
            g == 0b101_1011_1001u32 << k,
            t == reg ^ (w << 10),
            reg < 1u32 << j,
    ;
    assert(reg & (1u32 << i) == 0 ==> reg < 1u32 << i) by (bit_vector)
        requires
            j == i + 1,
            i < 26,
            reg < 1u32 << j,
    ;
    if reg & (1u32 << i) != 0 {
        q ^ (1u32 << k)
    } else {
        q
    }
}

proof fn lemma_division_end(word: u16, reg: u32, q: u32)
    requires
        q < 0x1_0000,
        times_generator(q) == reg ^ ((word as u32) << 10),
        reg < 1u32 << 10,
    ensures
        reg < 0x400,
        is_check_word(word, reg as u16),
{
    let w = word as u32;
    assert(reg < 0x400 && reg ^ (w << 10) == (w << 10) ^ reg) by (bit_vector)
        requires
            reg < 1u32 << 10,
    ;
}

proof fn lemma_division(word: u16, i: u32, reg: u32, q: u32)
    requires
        10 <= i <= 26,
        q < 0x1_0000,
        times_generator(q) == reg ^ ((word as u32) << 10),
        reg < 1u32 << i,
    ensures
        is_check_word(word, check_word(word)),
    decreases i,
{
    if i == 10 {
        lemma_division_end(word, reg, q);
        law_check_word_unique(word, reg as u16);
    } else {
        let j = (i - 1) as u32;
        let quotient = lemma_division_step(word, j, reg, q);
        lemma_division(word, j, division_step(reg, j), quotient);
    }
}

proof fn lemma_division_start(word: u16)
    ensures
        ((word as u32) << 10) < 1u32 << 26,
        times_generator(0) == ((word as u32) << 10) ^ ((word as u32) << 10),
{
    let w = word as u32;
    assert((w << 10) < 1u32 << 26 && times_generator(0) == (w << 10) ^ (w << 10)) by (bit_vector)
        requires
            w < 0x1_0000,
    ;
}

/// The check bits that belong to a word: the remainder of a division over GF(2).
pub fn syndrome(word: u16) -> (r: u16)
    ensures
        is_check_word(word, r),
        r == check_word(word),
{
    let mut reg: u32 = (word as u32) << 10;
    let mut i: u32 = 26;
    let ghost mut q: u32 = 0;
    proof {
        lemma_division_start(word);
    }
    while i > 10
        invariant
            10 <= i <= 26,
            q < 0x1_0000,
            times_generator(q) == reg ^ ((word as u32) << 10),
            reg < 1u32 << i,
        decreases i,
    {
        i = i - 1;
        proof {
            q = lemma_division_step(word, i, reg, q);
        }
        if reg & (1u32 << i) != 0 {
            reg = reg ^ (RDS_POLY << (i - 10));
        }
    }
    proof {
        lemma_division_end(word, reg, q);
        law_check_word_unique(word, reg as u16);
    }
    assert(reg & 0x3FF == reg) by (bit_vector)
        requires
            reg < 0x400,
    ;
    (reg & 0x3FF) as u16
}

/// Holds a 26-bit block against an offset; gives the data word when the check bits fit.
pub fn check_block(block: u32, offset: u16) -> (r: Option<u16>)
    ensures
        r == block_value(block, offset),
{
    let data: u16 = ((block >> 10) & 0xFFFF) as u16;
    let check: u16 = (block & 0x3FF) as u16;
    if check ^ offset == syndrome(data) {
        Some(data)
    } else {
        None
    }
}

/// A block passes the check at its own offset, and gives back its word.
pub proof fn law_block_round_trip(word: u16, offset: u16)
    requires
        offset < 0x400,
    ensures
        block_value(block_of(word, offset), offset) == Some(word),
        block_of(word, offset) < 0x400_0000,
{
    lemma_block_parts(word, offset);
    let c = check_word(word);
    assert((c ^ offset) ^ offset == c) by (bit_vector);
}

/// A block never passes at the place of another offset: that is how a block's place in its group
/// is recognised.
pub proof fn law_other_offset_rejected(word: u16, offset: u16, other: u16)
    requires
        offset < 0x400,
        other < 0x400,
        offset != other,
    ensures
        block_value(block_of(word, offset), other) is None,
{
    lemma_block_parts(word, offset);
    let c = check_word(word);
    assert((c ^ offset) ^ other != c) by (bit_vector)
        requires
            offset != other,
    ;
}

/// A burst of errors no longer than ten bits, anywhere in the block, is always found.
pub proof fn law_burst_rejected(word: u16, offset: u16, burst: u32, at: u32)
    requires
        offset < 0x400,
        0 < burst < 0x400,
        at <= 16,
    ensures
        block_value(block_of(word, offset) ^ (burst << at), offset) is None,
{
    lemma_has_check_word(word);
    let block = block_of(word, offset);
    let hit = block ^ (burst << at);
    let data = block_data(hit);
    lemma_has_check_word(data);
    if block_value(hit, offset) is Some {
        let p = choose|q: u32|
            q < 0x1_0000 && #[trigger] times_generator(q) == ((word as u32) << 10) ^ (check_word(
                word,
            ) as u32);
        let q = choose|q: u32|
            q < 0x1_0000 && #[trigger] times_generator(q) == ((data as u32) << 10) ^ (check_word(
                data,
            ) as u32);
        lemma_generator_linear(p, q);
        lemma_burst_is_no_multiple(p ^ q, burst, at);
        let a = times_generator(p);
        let b = times_generator(q);
        let cw = check_word(word);
        let cd = check_word(data);
        assert(a ^ b == burst << at) by (bit_vector)
            requires
                burst < 0x400,
                at <= 16,
                offset < 0x400,
                cw < 0x400,
                block == ((word as u32) << 10) | ((cw ^ offset) as u32),
                hit == block ^ (burst << at),
                data == ((hit >> 10) & 0xFFFF) as u16,
                cd == ((hit & 0x3FF) as u16) ^ offset,
                a == ((word as u32) << 10) ^ (cw as u32),
                b == ((data as u32) << 10) ^ (cd as u32),
        ;
    }
}

/// A block with one bit turned over does not pass.
pub proof fn law_damaged_bit_rejected(word: u16, offset: u16, bit: u32)
    requires
        offset < 0x400,
        bit < 26,
    ensures
        block_value(block_of(word, offset) ^ (1u32 << bit), offset) is None,
{
    let at: u32 = if bit <= 16 { bit } else { 16 };
    let burst: u32 = 1u32 << ((bit - at) as u32);
    let rest: u32 = (bit - at) as u32;
    assert(0 < (1u32 << rest) < 0x400 && (1u32 << rest) << at == 1u32 << bit) by (bit_vector)
        requires
            bit < 26,
            at == (if bit <= 16 { bit } else { 16 }),
            rest == bit - at,
    ;
    law_burst_rejected(word, offset, burst, at);
}

proof fn lemma_burst_is_no_multiple(q: u32, burst: u32, at: u32)
    by (bit_vector)
    requires
        q < 0x1_0000,
        0 < burst < 0x400,
        at <= 16,
    ensures
        times_generator(q) != burst << at,
{
}

/// Where in its group a block stands.
#[derive(Clone, Copy, PartialEq, Eq, Debug, Structural)]
pub enum BlockPos {
    A,
    B,
    C,
    D,
}

impl BlockPos {
    /// The place that follows; after D a new group starts.
    pub open spec fn following(self) -> BlockPos {
        match self {
            BlockPos::A => BlockPos::B,
            BlockPos::B => BlockPos::C,
            BlockPos::C => BlockPos::D,
            BlockPos::D => BlockPos::A,
        }
    }

    /// The index of the place in the group.
    pub open spec fn index(self) -> int {
        match self {
            BlockPos::A => 0,
            BlockPos::B => 1,
            BlockPos::C => 2,
            BlockPos::D => 3,
        }
    }

    /// The offset word of the place.
    pub open spec fn offset(self) -> u16 {
        match self {
            BlockPos::A => OFFSET_A,
            BlockPos::B => OFFSET_B,
            BlockPos::C => OFFSET_C,
            BlockPos::D => OFFSET_D,
        }
    }

    /// The place of the next block.
    pub fn next(self) -> (r: BlockPos)
        ensures
            r == self.following(),
    {
        match self {
            BlockPos::A => BlockPos::B,
            BlockPos::B => BlockPos::C,
            BlockPos::C => BlockPos::D,
            BlockPos::D => BlockPos::A,
        }
    }
}

/// The index of the first carriage return at or after `from`, or the length where there is none.
pub open spec fn text_end(buf: Seq<u8>, from: int) -> int
    decreases buf.len() - from,
{
    if from >= buf.len() {
        buf.len() as int
    } else if buf[from] == 0x0D {
        from
    } else {
        text_end(buf, from + 1)
    }
}

/// The character that a byte of text stands for; what cannot be printed becomes a space.
pub open spec fn printable(c: u8) -> char {
    if 0x20 <= c < 0x7F {
        c as char
    } else {
        ' '
    }
}

/// A text without the spaces at its end.
pub open spec fn without_trailing_spaces(s: Seq<char>) -> Seq<char>
    decreases s.len(),
{
    if s.len() > 0 && s.last() == ' ' {
        without_trailing_spaces(s.drop_last())
    } else {
        s
    }
}

/// The text that a buffer of bytes holds: it ends at the carriage return, and trailing spaces are
/// not part of it.
pub open spec fn rds_text(buf: Seq<u8>) -> Seq<char> {
    without_trailing_spaces(buf.take(text_end(buf, 0)).map_values(|c: u8| printable(c)))
}

proof fn lemma_text_end(buf: Seq<u8>, from: int, end: int)
    requires
        0 <= from <= end <= buf.len(),
        forall|i: int| from <= i < end ==> buf[i] != 0x0D,
        end == buf.len() || buf[end] == 0x0D,
    ensures
        text_end(buf, from) == end,
    decreases end - from,
{
    if from < end {
        lemma_text_end(buf, from + 1, end);
    }
}

proof fn lemma_trim(s: Seq<char>, n: int)
    requires
        0 <= n <= s.len(),
        forall|i: int| n <= i < s.len() ==> s[i] == ' ',
        n == 0 || s[n - 1] != ' ',
    ensures
        without_trailing_spaces(s) == s.take(n),
    decreases s.len(),
{
    if n < s.len() {
        lemma_trim(s.drop_last(), n);
        assert(s.drop_last().take(n) == s.take(n));
    } else {
        assert(s.take(n) == s);
    }
}

/// Turns bytes of RDS text into readable text.
pub fn to_text(buf: &[u8]) -> (r: String)
    ensures
        r@ == rds_text(buf@),
{
    let mut end: usize = 0;
    while end < buf.len() && buf[end] != 0x0D
        invariant
            end <= buf.len(),
            forall|i: int| 0 <= i < end ==> buf@[i] != 0x0D,
        decreases buf.len() - end,
    {
        end = end + 1;
    }
    proof {
        lemma_text_end(buf@, 0, end as int);
    }
    let ghost full = buf@.take(end as int).map_values(|c: u8| printable(c));
    while end > 0 && !(0x20 < buf[end - 1] && buf[end - 1] < 0x7F)
        invariant
            end <= full.len() <= buf@.len(),
            full == buf@.take(full.len() as int).map_values(|c: u8| printable(c)),
            forall|i: int| end <= i < full.len() ==> full[i] == ' ',
        decreases end,
    {
        end = end - 1;
    }
    let mut s = String::new();
    let mut i: usize = 0;
    while i < end
        invariant
            i <= end <= full.len() <= buf@.len(),
            full == buf@.take(full.len() as int).map_values(|c: u8| printable(c)),
            s@ == full.take(i as int),
        decreases end - i,
    {
        let c: u8 = buf[i];
        s.push(if 0x20 <= c && c < 0x7F {
            c as char
        } else {
            ' '
        });
        assert(full.take(i as int + 1) == full.take(i as int).push(full[i as int]));
        i = i + 1;
    }
    proof {
        lemma_trim(full, end as int);
    }
    s
}

/// After this many bits without one valid block the bit clock is taken to be half a symbol off.
pub const BITS_BEFORE_HALF_SHIFT: u32 = 1_300;

/// After this many bad blocks in a row the synchronisation is given up.
pub const BAD_BLOCKS_LIMIT: u32 = 6;

/// What has been read from RDS.
#[derive(Clone, PartialEq, Eq, Debug)]
pub struct RdsInfo {
    /// The station's name (programme service): eight characters that come in pairs.
    pub ps: String,
    /// RadioText: up to 64 characters, four or two at a time.
    pub rt: String,
    /// The programme identification code.
    pub pi: Option<u16>,
}

impl Default for RdsInfo {
    fn default() -> (r: RdsInfo)
        ensures
            r.ps@ == Seq::<char>::empty(),
            r.rt@ == Seq::<char>::empty(),
            r.pi is None,
    {
        RdsInfo { ps: String::new(), rt: String::new(), pi: None }
    }
}

/// The state of a decoder.
#[verifier::ext_equal]
pub struct RdsState {
    pub last_bit: Option<bool>,
    pub shift: u32,
    pub filled: u32,
    pub synced: bool,
    pub pos: BlockPos,
    pub bits_to_block: u32,
    pub group: Seq<Option<u16>>,
    pub bad_blocks: u32,
    pub ps_buf: Seq<u8>,
    pub rt_buf: Seq<u8>,
    pub rt_ab: Option<bool>,
    pub pi: Option<u16>,
    pub bits_since_good: u32,
    pub good_blocks: u32,
    pub bad_total: u32,
    pub sync_count: u32,
}

/// One more on a counter that stops at its largest value.
pub open spec fn counted(n: u32) -> u32 {
    if n < u32::MAX {
        (n + 1) as u32
    } else {
        n
    }
}

/// A buffer of spaces.
pub open spec fn spaces(n: nat) -> Seq<u8> {
    Seq::new(n, |i: int| 0x20u8)
}

/// The state before the first bit.
pub open spec fn fresh_state() -> RdsState {
    RdsState {
        last_bit: None,
        shift: 0,
        filled: 0,
        synced: false,
        pos: BlockPos::A,
        bits_to_block: 26,
        group: seq![None, None, None, None],
        bad_blocks: 0,
        ps_buf: spaces(8),
        rt_buf: spaces(64),
        rt_ab: None,
        pi: None,
        bits_since_good: 0,
        good_blocks: 0,
        bad_total: 0,
        sync_count: 0,
    }
}

impl RdsState {
    /// What every state that a decoder can reach satisfies.
    pub open spec fn valid(self) -> bool {
        &&& self.shift < 0x400_0000
        &&& self.filled <= 26
        &&& 1 <= self.bits_to_block <= 26
        &&& self.group.len() == 4
        &&& self.bad_blocks < BAD_BLOCKS_LIMIT
        &&& self.ps_buf.len() == 8
        &&& self.rt_buf.len() == 64
        &&& self.bits_since_good <= BITS_BEFORE_HALF_SHIFT
    }

    /// The state after a search for the start of a group: block A begins one.
    pub open spec fn after_search(self) -> RdsState {
        match block_value(self.shift, OFFSET_A) {
            Some(pi) => RdsState {
                synced: true,
                pos: BlockPos::B,
                group: seq![Some(pi), None, None, None],
                bits_to_block: 26,
                bad_blocks: 0,
                pi: Some(pi),
                bits_since_good: 0,
                good_blocks: counted(self.good_blocks),
                sync_count: counted(self.sync_count),
                ..self
            },
            None => self,
        }
    }

    /// The word of the block just read, where its check bits fit the place it has. Groups of
    /// version B have another offset at the place of C.
    pub open spec fn read_word(self) -> Option<u16> {
        let word = block_value(self.shift, self.pos.offset());
        if word is None && self.pos == BlockPos::C {
            block_value(self.shift, OFFSET_CP)
        } else {
            word
        }
    }

    /// The state after the word of a block was put in its group and counted.
    pub open spec fn after_word(self, word: Option<u16>) -> RdsState {
        let group = self.group.update(self.pos.index(), word);
        if word is None {
            let lost = self.bad_blocks + 1 >= BAD_BLOCKS_LIMIT;
            RdsState {
                group,
                bad_blocks: if lost {
                    0
                } else {
                    (self.bad_blocks + 1) as u32
                },
                bad_total: counted(self.bad_total),
                synced: self.synced && !lost,
                ..self
            }
        } else {
            RdsState {
                group,
                bad_blocks: 0,
                good_blocks: counted(self.good_blocks),
                bits_since_good: 0,
                pi: if self.pos == BlockPos::A {
                    word
                } else {
                    self.pi
                },
                ..self
            }
        }
    }

    /// The state after a whole block: a group is read when its last block has come.
    pub open spec fn after_block(self) -> RdsState {
        let s = self.after_word(self.read_word());
        if self.pos == BlockPos::D {
            RdsState {
                group: seq![None, None, None, None],
                pos: self.pos.following(),
                ..s.after_group()
            }
        } else {
            RdsState { pos: self.pos.following(), ..s }
        }
    }

    /// The RadioText buffer that a group with the given A/B flag writes to: a changed flag starts
    /// a new text.
    pub open spec fn text_base(self, ab: bool) -> Seq<u8> {
        if self.rt_ab == Some(ab) {
            self.rt_buf
        } else {
            spaces(64)
        }
    }

    /// The state after a group was read. Groups of type 0 carry two characters of the station's
    /// name in block D. Groups 2A carry four characters of RadioText in blocks C and D, groups 2B
    /// two in block D. Without blocks A and B nothing is read.
    pub open spec fn after_group(self) -> RdsState {
        if self.group[0] is None || self.group[1] is None {
            self
        } else {
            let b = self.group[1]->0;
            let kind = b >> 12;
            let version_b = (b >> 11) & 1 == 1;
            let ab = (b >> 4) & 1 == 1;
            if kind == 0 {
                match self.group[3] {
                    Some(d) => RdsState {
                        ps_buf: pair_written(self.ps_buf, (b & 0x3) as int * 2, d),
                        ..self
                    },
                    None => self,
                }
            } else if kind == 2 && !version_b {
                let at = (b & 0xF) as int * 4;
                let base = self.text_base(ab);
                let with_c = match self.group[2] {
                    Some(c) => pair_written(base, at, c),
                    None => base,
                };
                let with_d = match self.group[3] {
                    Some(d) => pair_written(with_c, at + 2, d),
                    None => with_c,
                };
                RdsState { rt_ab: Some(ab), rt_buf: with_d, ..self }
            } else if kind == 2 {
                let at = (b & 0xF) as int * 2;
                let base = self.text_base(ab);
                let with_d = match self.group[3] {
                    Some(d) => pair_written(base, at, d),
                    None => base,
                };
                RdsState { rt_ab: Some(ab), rt_buf: with_d, ..self }
            } else {
                self
            }
        }
    }

    /// The level carries a change, so a bit is read from the second level on.
    pub open spec fn shifted(self, level: bool) -> RdsState {
        match self.last_bit {
            None => RdsState { last_bit: Some(level), ..self },
            Some(prev) => RdsState {
                last_bit: Some(level),
                shift: ((self.shift << 1) | (if prev != level {
                    1u32
                } else {
                    0u32
                })) & 0x3FF_FFFF,
                filled: if self.filled < 26 {
                    (self.filled + 1) as u32
                } else {
                    26
                },
                ..self
            },
        }
    }

    /// Is the bit clock to be moved by half a symbol at this level?
    pub open spec fn asks_half_shift(self, level: bool) -> bool {
        &&& self.last_bit is Some
        &&& self.shifted(level).filled == 26
        &&& self.bits_since_good >= BITS_BEFORE_HALF_SHIFT
    }

    /// The state after one more level.
    pub open spec fn fed(self, level: bool) -> RdsState {
        let s = self.shifted(level);
        if self.last_bit is None || s.filled < 26 {
            s
        } else if self.asks_half_shift(level) {
            RdsState { synced: false, filled: 0, bits_since_good: 0, ..s }
        } else {
            let t = RdsState { bits_since_good: (s.bits_since_good + 1) as u32, ..s };
            if !t.synced {
                t.after_search()
            } else if t.bits_to_block == 1 {
                RdsState { bits_to_block: 26, ..t.after_block() }
            } else {
                RdsState { bits_to_block: (t.bits_to_block - 1) as u32, ..t }
            }
        }
    }
}

/// A buffer with the two characters of `word` written at `at`.
pub open spec fn pair_written(buf: Seq<u8>, at: int, word: u16) -> Seq<u8> {
    buf.update(at, (word >> 8) as u8).update(at + 1, (word & 0xFF) as u8)
}

/// The bit level of an RDS decoder: it takes the levels that the demodulator has decided on and
/// gives the station's name, its text and its code.
pub struct RdsDecoder {
    last_bit: Option<bool>,
    shift: u32,
    filled: u32,
    synced: bool,
    pos: BlockPos,
    bits_to_block: u32,
    group: [Option<u16>; 4],
    bad_blocks: u32,
    ps_buf: [u8; 8],
    rt_buf: [u8; 64],
    rt_ab: Option<bool>,
    info: RdsInfo,
    bits_since_good: u32,
    good_blocks: u32,
    bad_total: u32,
    sync_count: u32,
}

impl View for RdsDecoder {
    type V = RdsState;

    closed spec fn view(&self) -> RdsState {
        RdsState {
            last_bit: self.last_bit,
            shift: self.shift,
            filled: self.filled,
            synced: self.synced,
            pos: self.pos,
            bits_to_block: self.bits_to_block,
            group: self.group@,
            bad_blocks: self.bad_blocks,
            ps_buf: self.ps_buf@,
            rt_buf: self.rt_buf@,
            rt_ab: self.rt_ab,
            pi: self.info.pi,
            bits_since_good: self.bits_since_good,
            good_blocks: self.good_blocks,
            bad_total: self.bad_total,
            sync_count: self.sync_count,
        }
    }
}

impl RdsDecoder {
    /// The state is valid, and the texts are those of the buffers.
    pub closed spec fn wf(&self) -> bool {
        &&& self@.valid()
        &&& self.info.ps@ == rds_text(self.ps_buf@)
        &&& self.info.rt@ == rds_text(self.rt_buf@)
    }

    /// A decoder that has read nothing yet.
    pub fn new() -> (r: Self)
        ensures
            r.wf(),
            r@ == fresh_state(),
    {
        let r = RdsDecoder {
            last_bit: None,
            shift: 0,
            filled: 0,
            synced: false,
            pos: BlockPos::A,
            bits_to_block: 26,
            group: [None, None, None, None],
            bad_blocks: 0,
            ps_buf: [0x20u8; 8],
            rt_buf: [0x20u8; 64],
            rt_ab: None,
            info: RdsInfo::default(),
            bits_since_good: 0,
            good_blocks: 0,
            bad_total: 0,
            sync_count: 0,
        };
        proof {
            lemma_spaces_are_empty_text(8);
            lemma_spaces_are_empty_text(64);
            assert(r.ps_buf@ == spaces(8));
            assert(r.rt_buf@ == spaces(64));
            assert(r@ =~= fresh_state());
        }
        r
    }

    /// What has been read so far.
    pub fn info(&self) -> (r: &RdsInfo)
        requires
            self.wf(),
        ensures
            r.pi == self@.pi,
            r.ps@ == rds_text(self@.ps_buf),
            r.rt@ == rds_text(self@.rt_buf),
    {
        &self.info
    }

    /// Forgets everything and starts again, as for another station.
    pub fn reset(&mut self)
        ensures
            final(self).wf(),
            final(self)@ == fresh_state(),
    {
        *self = RdsDecoder::new();
    }

    /// How many blocks passed the check and how many did not.
    pub fn block_stats(&self) -> (r: (u32, u32))
        ensures
            r == (self@.good_blocks, self@.bad_total),
    {
        (self.good_blocks, self.bad_total)
    }

    /// How many times synchronisation was found, and whether it is held now.
    pub fn sync_stats(&self) -> (r: (u32, bool))
        ensures
            r == (self@.sync_count, self@.synced),
    {
        (self.sync_count, self.synced)
    }

    /// Takes one level. The result says that the bit clock is to be moved by half a symbol: in
    /// biphase code the clock can settle half a symbol off, and then no block ever passes.
    pub fn feed_bit(&mut self, level: bool) -> (half_shift: bool)
        requires
            old(self).wf(),
        ensures
            final(self).wf(),
            final(self)@ == old(self)@.fed(level),
            half_shift == old(self)@.asks_half_shift(level),
    {
        let prev = match self.last_bit {
            None => {
                self.last_bit = Some(level);
                return false;
            },
            Some(prev) => prev,
        };
        self.last_bit = Some(level);
        let bit: u32 = if prev != level {
            1
        } else {
            0
        };
        self.shift = ((self.shift << 1) | bit) & 0x3FF_FFFF;
        proof {
            lemma_masked(self.shift, (old(self).shift << 1) | bit);
        }
        if self.filled < 26 {
            self.filled = self.filled + 1;
        }
        if self.filled < 26 {
            return false;
        }
        self.bits_since_good = self.bits_since_good + 1;
        if self.bits_since_good > BITS_BEFORE_HALF_SHIFT {
            self.synced = false;
            self.filled = 0;
            self.bits_since_good = 0;
            return true;
        }
        if self.synced {
            if self.bits_to_block == 1 {
                self.bits_to_block = 26;
                self.take_block();
            } else {
                self.bits_to_block = self.bits_to_block - 1;
            }
        } else {
            self.try_sync();
        }
        false
    }

    /// Looks for the start of a group in the last 26 bits: only block A marks it.
    fn try_sync(&mut self)
        requires
            old(self).wf(),
        ensures
            final(self).wf(),
            final(self)@ == old(self)@.after_search(),
    {
        if let Some(pi) = check_block(self.shift, OFFSET_A) {
            self.synced = true;
            self.group = [Some(pi), None, None, None];
            self.bits_to_block = 26;
            self.bad_blocks = 0;
            self.pos = BlockPos::B;
            self.info.pi = Some(pi);
            self.bits_since_good = 0;
            self.good_blocks = self.good_blocks.saturating_add(1);
            self.sync_count = self.sync_count.saturating_add(1);
            assert(self@ =~= old(self)@.after_search());
        }
    }

    /// Reads the block that has just come, by the place it has in its group.
    fn take_block(&mut self)
        requires
            old(self).wf(),
        ensures
            final(self).wf(),
            final(self)@ == old(self)@.after_block(),
    {
        let pos = self.pos;
        let offset: u16 = match pos {
            BlockPos::A => OFFSET_A,
            BlockPos::B => OFFSET_B,
            BlockPos::C => OFFSET_C,
            BlockPos::D => OFFSET_D,
        };
        let mut word: Option<u16> = check_block(self.shift, offset);
        if word.is_none() && pos == BlockPos::C {
            word = check_block(self.shift, OFFSET_CP);
        }
        let index: usize = match pos {
            BlockPos::A => 0,
            BlockPos::B => 1,
            BlockPos::C => 2,
            BlockPos::D => 3,
        };
        self.group[index] = word;
        if word.is_none() {
            self.bad_blocks = self.bad_blocks + 1;
            self.bad_total = self.bad_total.saturating_add(1);
            if self.bad_blocks >= BAD_BLOCKS_LIMIT {
                self.synced = false;
                self.bad_blocks = 0;
            }
        } else {
            self.bad_blocks = 0;
            self.good_blocks = self.good_blocks.saturating_add(1);
            self.bits_since_good = 0;
            if pos == BlockPos::A {
                self.info.pi = word;
            }
        }
        assert(self@ =~= old(self)@.after_word(old(self)@.read_word()));
        if pos == BlockPos::D {
            self.decode_group();
            self.group = [None, None, None, None];
        }
        self.pos = pos.next();
        assert(self@ =~= old(self)@.after_block());
    }

    /// Takes from a group what is understood: the station's name and RadioText.
    fn decode_group(&mut self)
        requires
            old(self).wf(),
        ensures
            final(self).wf(),
            final(self)@ == old(self)@.after_group(),
    {
        let b: u16 = match (self.group[0], self.group[1]) {
            (Some(_), Some(b)) => b,
            _ => {
                return;
            },
        };
        proof {
            lemma_group_fields(b);
        }
        let kind: u16 = b >> 12;
        let version_b: bool = (b >> 11) & 1 == 1;
        let ab: bool = (b >> 4) & 1 == 1;
        if kind == 0 {
            let at: usize = (b & 0x3) as usize * 2;
            if let Some(d) = self.group[3] {
                self.ps_buf[at] = (d >> 8) as u8;
                self.ps_buf[at + 1] = (d & 0xFF) as u8;
                self.info.ps = to_text(&self.ps_buf);
            }
        } else if kind == 2 && !version_b {
            self.reset_rt_if_changed(ab);
            let at: usize = (b & 0xF) as usize * 4;
            if let Some(c) = self.group[2] {
                self.rt_buf[at] = (c >> 8) as u8;
                self.rt_buf[at + 1] = (c & 0xFF) as u8;
            }
            if let Some(d) = self.group[3] {
                self.rt_buf[at + 2] = (d >> 8) as u8;
                self.rt_buf[at + 3] = (d & 0xFF) as u8;
            }
            self.info.rt = to_text(&self.rt_buf);
        } else if kind == 2 {
            self.reset_rt_if_changed(ab);
            let at: usize = (b & 0xF) as usize * 2;
            if let Some(d) = self.group[3] {
                self.rt_buf[at] = (d >> 8) as u8;
                self.rt_buf[at + 1] = (d & 0xFF) as u8;
            }
            self.info.rt = to_text(&self.rt_buf);
        }
        assert(self@ =~= old(self)@.after_group());
    }

    /// A changed A/B flag means a new text: the old one must not show through.
    fn reset_rt_if_changed(&mut self, ab: bool)
        requires
            old(self).wf(),
        ensures
            final(self)@ == (RdsState {
                rt_ab: Some(ab),
                rt_buf: old(self)@.text_base(ab),
                ..old(self)@
            }),
            final(self).info.ps == old(self).info.ps,
            final(self).info.pi == old(self).info.pi,
    {
        let same: bool = match self.rt_ab {
            Some(flag) => flag == ab,
            None => false,
        };
        if !same {
            self.rt_buf = [0x20u8; 64];
            self.rt_ab = Some(ab);
            assert(self.rt_buf@ =~= spaces(64));
        }
        assert(self@ =~= (RdsState {
            rt_ab: Some(ab),
            rt_buf: old(self)@.text_base(ab),
            ..old(self)@
        }));
    }
}

proof fn lemma_masked(x: u32, y: u32)
    by (bit_vector)
    requires
        x == y & 0x3FF_FFFF,
    ensures
        x < 0x400_0000,
{
}

proof fn lemma_group_fields(b: u16)
    by (bit_vector)
    ensures
        b & 0x3 <= 3,
        b & 0xF <= 15,
{
}

proof fn lemma_spaces_are_empty_text(n: nat)
    ensures
        rds_text(spaces(n)) == Seq::<char>::empty(),
{
    let buf = spaces(n);
    lemma_text_end(buf, 0, n as int);
    let s = buf.take(n as int).map_values(|c: u8| printable(c));
    lemma_trim(s, 0);
    assert(s.take(0) == Seq::<char>::empty());
}

/// The bits of a block as they are sent, the highest first.
pub open spec fn block_bits(block: u32) -> Seq<bool> {
    Seq::new(26, |k: int| block & (1u32 << ((25 - k) as u32)) != 0)
}

/// The bits of a group of four words.
pub open spec fn group_bits(a: u16, b: u16, c: u16, d: u16) -> Seq<bool> {
    block_bits(block_of(a, OFFSET_A)) + block_bits(block_of(b, OFFSET_B)) + block_bits(
        block_of(c, OFFSET_C),
    ) + block_bits(block_of(d, OFFSET_D))
}

/// The `i`-th pair of characters of a name or a text.
pub open spec fn name_pair(name: Seq<u8>, i: int) -> u16 {
    ((name[2 * i] as u16) << 8) | (name[2 * i + 1] as u16)
}

/// The bits of the first `n` groups 0A that repeat a station's name, four groups for each time.
pub open spec fn name_bits(pi: u16, name: Seq<u8>, n: nat) -> Seq<bool>
    decreases n,
{
    if n == 0 {
        Seq::empty()
    } else {
        let i = ((n - 1) % 4) as u16;
        name_bits(pi, name, (n - 1) as nat) + group_bits(pi, i, 0, name_pair(name, i as int))
    }
}

/// The second word of a group 2A: which four characters of the text follow, and its A/B flag.
pub open spec fn text_word(ab: bool, i: u16) -> u16 {
    0x2000u16 | (if ab {
        0x10u16
    } else {
        0u16
    }) | i
}

/// The bits of the first `n` groups 2A that repeat a RadioText, sixteen groups for each time.
pub open spec fn text_bits(pi: u16, ab: bool, text: Seq<u8>, n: nat) -> Seq<bool>
    decreases n,
{
    if n == 0 {
        Seq::empty()
    } else {
        let i = (n - 1) % 16;
        text_bits(pi, ab, text, (n - 1) as nat) + group_bits(
            pi,
            text_word(ab, i as u16),
            name_pair(text, 2 * i),
            name_pair(text, 2 * i + 1),
        )
    }
}

/// The levels that carry the bits: a level changes where a bit is one.
pub open spec fn differential(bits: Seq<bool>) -> Seq<bool>
    decreases bits.len(),
{
    if bits.len() == 0 {
        seq![false]
    } else {
        let before = differential(bits.drop_last());
        before.push(before.last() != bits.last())
    }
}

/// Appends the bits of a block.
fn push_block(bits: &mut Vec<bool>, word: u16, offset: u16)
    ensures
        final(bits)@ == old(bits)@ + block_bits(block_of(word, offset)),
{
    let block: u32 = ((word as u32) << 10) | ((syndrome(word) ^ offset) as u32);
    let mut k: u32 = 26;
    while k > 0
        invariant
            k <= 26,
            block == block_of(word, offset),
            bits@ == old(bits)@ + block_bits(block).take(26 - k),
        decreases k,
    {
        k = k - 1;
        bits.push(block & (1u32 << k) != 0);
        assert(block_bits(block).take(26 - k) == block_bits(block).take(25 - k).push(
            block_bits(block)[25 - k],
        ));
    }
    assert(block_bits(block).take(26) == block_bits(block));
}

/// The levels of groups 0A that send a station's code and name, the whole name `skupin` times.
pub fn testovaci_urovne(pi: u16, jmeno: &[u8; 8], skupin: usize) -> (levels: Vec<bool>)
    ensures
        levels@ == differential(name_bits(pi, jmeno@, (4 * skupin) as nat)),
{
    let mut bits: Vec<bool> = Vec::new();
    let mut n: usize = 0;
    while n < skupin
        invariant
            n <= skupin,
            bits@ == name_bits(pi, jmeno@, (4 * n) as nat),
        decreases skupin - n,
    {
        let mut i: u16 = 0;
        while i < 4
            invariant
                i <= 4,
                bits@ == name_bits(pi, jmeno@, (4 * n + i) as nat),
            decreases 4 - i,
        {
            let at: usize = i as usize * 2;
            let pair: u16 = ((jmeno[at] as u16) << 8) | (jmeno[at + 1] as u16);
            let ghost before = bits@;
            push_block(&mut bits, pi, OFFSET_A);
            push_block(&mut bits, i, OFFSET_B);
            push_block(&mut bits, 0x0000, OFFSET_C);
            push_block(&mut bits, pair, OFFSET_D);
            assert(bits@ == before + group_bits(pi, i, 0, pair));
            assert((4 * n + i) % 4 == i);
            i = i + 1;
        }
        n = n + 1;
    }
    let mut level: bool = false;
    let mut levels: Vec<bool> = Vec::new();
    levels.push(level);
    assert(bits@.take(0) == Seq::<bool>::empty());
    assert(levels@ == differential(bits@.take(0)));
    let mut k: usize = 0;
    while k < bits.len()
        invariant
            k <= bits@.len(),
            levels@ == differential(bits@.take(k as int)),
            levels@.len() > 0,
            level == levels@.last(),
        decreases bits.len() - k,
    {
        assert(bits@.take(k as int + 1).drop_last() == bits@.take(k as int));
        if bits[k] {
            level = !level;
        }
        levels.push(level);
        k = k + 1;
    }
    assert(bits@.take(k as int) == bits@);
    levels
}

/// The state after a sequence of levels.
pub open spec fn decoded(s: RdsState, levels: Seq<bool>) -> RdsState
    decreases levels.len(),
{
    if levels.len() == 0 {
        s
    } else {
        decoded(s, levels.drop_last()).fed(levels.last())
    }
}

/// The state with the sense of the levels turned round.
pub open spec fn inverted(s: RdsState) -> RdsState {
    RdsState {
        last_bit: match s.last_bit {
            Some(level) => Some(!level),
            None => None,
        },
        ..s
    }
}

/// Every state that a valid state leads to is valid.
pub proof fn law_validity_is_kept(s: RdsState, level: bool)
    requires
        s.valid(),
    ensures
        s.fed(level).valid(),
{
    if s.last_bit is Some {
        let bit: u32 = if s.last_bit->0 != level {
            1
        } else {
            0
        };
        lemma_masked(((s.shift << 1) | bit) & 0x3FF_FFFF, (s.shift << 1) | bit);
        let t = RdsState {
            bits_since_good: (s.bits_since_good + 1) as u32,
            ..s.shifted(level)
        };
        let w = t.after_word(t.read_word());
        assert(s.bits_since_good < BITS_BEFORE_HALF_SHIFT ==> w.valid());
        if w.group[1] is Some {
            lemma_group_fields(w.group[1]->0);
        }
        assert(w.valid() ==> w.after_group().valid());
    }
}

/// Levels that all have the opposite sense are read the same: the demodulator may be turned by
/// 180 degrees.
pub proof fn law_polarity_does_not_matter(levels: Seq<bool>)
    ensures
        decoded(fresh_state(), levels.map_values(|l: bool| !l)) == inverted(
            decoded(fresh_state(), levels),
        ),
    decreases levels.len(),
{
    let turned = levels.map_values(|l: bool| !l);
    if levels.len() > 0 {
        law_polarity_does_not_matter(levels.drop_last());
        assert(turned.drop_last() == levels.drop_last().map_values(|l: bool| !l));
        let s = decoded(fresh_state(), levels.drop_last());
        let l = levels.last();
        assert(inverted(s).fed(!l) =~= inverted(s.fed(l)));
    }
}

/// The state after bits, where the level of each follows from the one before.
spec fn absorbed(s: RdsState, bits: Seq<bool>) -> RdsState
    decreases bits.len(),
{
    if bits.len() == 0 {
        s
    } else {
        let t = absorbed(s, bits.drop_last());
        t.fed((t.last_bit->0) != bits.last())
    }
}

proof fn lemma_absorbed_last_bit(s: RdsState, bits: Seq<bool>)
    requires
        s.last_bit is Some,
    ensures
        absorbed(s, bits).last_bit is Some,
    decreases bits.len(),
{
    if bits.len() > 0 {
        lemma_absorbed_last_bit(s, bits.drop_last());
    }
}

proof fn lemma_absorbed_concat(s: RdsState, a: Seq<bool>, b: Seq<bool>)
    ensures
        absorbed(s, a + b) == absorbed(absorbed(s, a), b),
    decreases b.len(),
{
    if b.len() == 0 {
        assert(a + b == a);
    } else {
        lemma_absorbed_concat(s, a, b.drop_last());
        assert((a + b).drop_last() == a + b.drop_last());
    }
}

proof fn lemma_levels_are_bits(bits: Seq<bool>)
    ensures
        differential(bits).len() > 0,
        decoded(fresh_state(), differential(bits)) == absorbed(fresh_state().fed(false), bits),
        decoded(fresh_state(), differential(bits)).last_bit == Some(differential(bits).last()),
    decreases bits.len(),
{
    if bits.len() == 0 {
        let d = differential(bits);
        assert(d.drop_last() == Seq::<bool>::empty());
        assert(decoded(fresh_state(), d.drop_last()) == fresh_state());
    } else {
        lemma_levels_are_bits(bits.drop_last());
        let before = differential(bits.drop_last());
        assert(differential(bits).drop_last() == before);
    }
}

proof fn lemma_bit_in(sh: u32, w: u32, k: u32, bit: u32)
    by (bit_vector)
    requires
        k < 26,
        w < 0x400_0000,
        sh & ((1u32 << k) - 1) as u32 == w >> ((26 - k) as u32),
        bit == (if w & (1u32 << ((25 - k) as u32)) != 0 { 1u32 } else { 0u32 }),
    ensures
        (((sh << 1) | bit) & 0x3FF_FFFF) & ((1u32 << ((k + 1) as u32)) - 1) as u32 == w >> ((25
            - k) as u32),
{
}

proof fn lemma_bits_ends(sh: u32, w: u32)
    by (bit_vector)
    requires
        w < 0x400_0000,
    ensures
        sh & ((1u32 << 0) - 1) as u32 == w >> 26,
        sh < 0x400_0000 ==> sh & ((1u32 << 26) - 1) as u32 == sh,
        w >> 0 == w,
{
}

/// The decoder is synchronised, has just had a block that passed, and expects the next at `pos`.
pub open spec fn at_block(s: RdsState, pos: BlockPos) -> bool {
    &&& s.valid()
    &&& s.last_bit is Some
    &&& s.synced
    &&& s.pos == pos
    &&& s.filled == 26
    &&& s.bits_to_block == 26
    &&& s.bits_since_good == 0
    &&& s.bad_blocks == 0
}

/// While a block comes in, the low bits of the register fill with its high bits.
proof fn lemma_block_comes(s: RdsState, w: u32, k: nat)
    requires
        s.valid(),
        s.last_bit is Some,
        w < 0x400_0000,
        k <= 25,
        s.filled == 0 || s.filled == 26 && s.synced && s.bits_to_block == 26 && s.bits_since_good
            == 0,
    ensures
        ({
            let t = absorbed(s, block_bits(w).take(k as int));
            &&& t.valid()
            &&& t.last_bit is Some
            &&& t.shift & ((1u32 << (k as u32)) - 1) as u32 == w >> ((26 - k) as u32)
            &&& t == RdsState {
                last_bit: t.last_bit,
                shift: t.shift,
                filled: if s.filled == 0 {
                    k as u32
                } else {
                    26
                },
                bits_to_block: if s.filled == 0 {
                    s.bits_to_block
                } else {
                    (26 - k) as u32
                },
                bits_since_good: if s.filled == 0 {
                    s.bits_since_good
                } else {
                    k as u32
                },
                ..s
            }
        }),
    decreases k,
{
    let bits = block_bits(w);
    if k == 0 {
        assert(bits.take(0) == Seq::<bool>::empty());
        lemma_bits_ends(s.shift, w);
    } else {
        let j = (k - 1) as nat;
        lemma_block_comes(s, w, j);
        let t = absorbed(s, bits.take(j as int));
        assert(bits.take(k as int).drop_last() == bits.take(j as int));
        let bit = bits[j as int];
        let level = (t.last_bit->0) != bit;
        law_validity_is_kept(t, level);
        lemma_bit_in(t.shift, w, j as u32, if bit { 1u32 } else { 0u32 });
        assert(absorbed(s, bits.take(k as int)) == t.fed(level));
    }
}

/// Once all bits of a block are in, the register holds the block.
proof fn lemma_block_is_in(s: RdsState, w: u32) -> (t: RdsState)
    requires
        s.valid(),
        s.last_bit is Some,
        w < 0x400_0000,
        s.filled == 0 || s.filled == 26 && s.synced && s.bits_to_block == 26 && s.bits_since_good
            == 0,
    ensures
        t == absorbed(s, block_bits(w).take(25)),
        t.valid(),
        absorbed(s, block_bits(w)) == t.fed((t.last_bit->0) != block_bits(w)[25]),
        t.shifted((t.last_bit->0) != block_bits(w)[25]).shift == w,
        t == (RdsState {
            last_bit: t.last_bit,
            shift: t.shift,
            filled: if s.filled == 0 {
                25
            } else {
                26
            },
            bits_to_block: if s.filled == 0 {
                s.bits_to_block
            } else {
                1
            },
            bits_since_good: if s.filled == 0 {
                s.bits_since_good
            } else {
                25
            },
            ..s
        }),
        t.last_bit is Some,
{
    let bits = block_bits(w);
    lemma_block_comes(s, w, 25);
    let t = absorbed(s, bits.take(25));
    assert(bits.drop_last() == bits.take(25));
    let bit = bits[25];
    let level = (t.last_bit->0) != bit;
    let b: u32 = if bit {
        1
    } else {
        0
    };
    lemma_bit_in(t.shift, w, 25, b);
    lemma_masked(((t.shift << 1) | b) & 0x3FF_FFFF, (t.shift << 1) | b);
    lemma_bits_ends(((t.shift << 1) | b) & 0x3FF_FFFF, w);
    t
}

/// The first block A that comes is recognised with its last bit.
proof fn lemma_first_block(word: u16)
    ensures
        ({
            let s = fresh_state().fed(false);
            let u = absorbed(s, block_bits(block_of(word, OFFSET_A)));
            &&& at_block(u, BlockPos::B)
            &&& u.group == seq![Some(word), None, None, None]
            &&& u.pi == Some(word)
            &&& (u.ps_buf, u.rt_buf, u.rt_ab) == (s.ps_buf, s.rt_buf, s.rt_ab)
        }),
{
    let s = fresh_state().fed(false);
    law_block_round_trip(word, OFFSET_A);
    let w = block_of(word, OFFSET_A);
    let t = lemma_block_is_in(s, w);
    law_validity_is_kept(t, (t.last_bit->0) != block_bits(w)[25]);
}

/// A block at its place is put in the group; with block D the group is read.
#[verifier::rlimit(40)]
proof fn lemma_good_block(s: RdsState, word: u16, offset: u16)
    requires
        at_block(s, s.pos),
        offset == s.pos.offset() || s.pos == BlockPos::C && offset == OFFSET_CP,
    ensures
        ({
            let u = absorbed(s, block_bits(block_of(word, offset)));
            let full = RdsState { group: s.group.update(s.pos.index(), Some(word)), ..s };
            let read = if s.pos == BlockPos::D {
                full.after_group()
            } else {
                full
            };
            &&& at_block(u, s.pos.following())
            &&& u.group == if s.pos == BlockPos::D {
                seq![None, None, None, None]
            } else {
                full.group
            }
            &&& u.pi == if s.pos == BlockPos::A {
                Some(word)
            } else {
                s.pi
            }
            &&& (u.ps_buf, u.rt_buf, u.rt_ab) == (read.ps_buf, read.rt_buf, read.rt_ab)
        }),
{
    let w = block_of(word, offset);
    law_block_round_trip(word, offset);
    if offset != s.pos.offset() {
        law_other_offset_rejected(word, offset, OFFSET_C);
    }
    let t = lemma_block_is_in(s, w);
    let level = (t.last_bit->0) != block_bits(w)[25];
    law_validity_is_kept(t, level);
    let v = RdsState { bits_since_good: 26, ..t.shifted(level) };
    assert(v.read_word() == Some(word));
    let full = RdsState { group: s.group.update(s.pos.index(), Some(word)), ..s };
    let x = v.after_word(Some(word));
    assert(x.group == full.group);
    assert(absorbed(s, block_bits(w)) == RdsState { bits_to_block: 26, ..v.after_block() });
}

/// A group that comes while the decoder expects one is read as it was sent: the state is that of
/// a decoder that has the four words in its group. Afterwards it expects the next group.
pub proof fn law_group_is_read(s: RdsState, levels: Seq<bool>, a: u16, b: u16, c: u16, d: u16)
    requires
        at_block(s, BlockPos::A),
        levels == differential(group_bits(a, b, c, d)).drop_first().map_values(
            |l: bool| l != (s.last_bit->0),
        ),
    ensures
        ({
            let u = decoded(s, levels);
            let read = RdsState {
                group: seq![Some(a), Some(b), Some(c), Some(d)],
                ..s
            }.after_group();
            &&& at_block(u, BlockPos::A)
            &&& u.pi == Some(a)
            &&& (u.ps_buf, u.rt_buf, u.rt_ab) == (read.ps_buf, read.rt_buf, read.rt_ab)
        }),
{
    let bits = group_bits(a, b, c, d);
    lemma_continued_levels(s, bits);
    lemma_group_absorbed(s, a, b, c, d);
}

/// Levels that go on from the level a state has last seen carry the same bits.
proof fn lemma_continued_levels(s: RdsState, bits: Seq<bool>)
    requires
        s.last_bit is Some,
    ensures
        ({
            let levels = differential(bits).drop_first().map_values(
                |l: bool| l != (s.last_bit->0),
            );
            &&& differential(bits).len() == bits.len() + 1
            &&& decoded(s, levels) == absorbed(s, bits)
            &&& absorbed(s, bits).last_bit == Some(differential(bits).last() != (s.last_bit->0))
        }),
    decreases bits.len(),
{
    let f = |l: bool| l != (s.last_bit->0);
    let levels = differential(bits).drop_first().map_values(f);
    if bits.len() == 0 {
        assert(levels == Seq::<bool>::empty());
    } else {
        let front = bits.drop_last();
        lemma_continued_levels(s, front);
        let before = differential(front).drop_first().map_values(f);
        assert(levels.drop_last() == before);
        assert(levels.last() == (differential(bits).last() != (s.last_bit->0)));
    }
}

proof fn lemma_group_absorbed(s: RdsState, a: u16, b: u16, c: u16, d: u16)
    requires
        at_block(s, BlockPos::A),
    ensures
        ({
            let u = absorbed(s, group_bits(a, b, c, d));
            let read = RdsState {
                group: seq![Some(a), Some(b), Some(c), Some(d)],
                ..s
            }.after_group();
            &&& at_block(u, BlockPos::A)
            &&& u.pi == Some(a)
            &&& (u.ps_buf, u.rt_buf, u.rt_ab) == (read.ps_buf, read.rt_buf, read.rt_ab)
        }),
{
    let wa = block_bits(block_of(a, OFFSET_A));
    lemma_good_block(s, a, OFFSET_A);
    let s1 = absorbed(s, wa);
    lemma_rest_of_group(s, s1, wa, a, b, c, d);
}

/// The blocks B, C and D after a state that has block A.
proof fn lemma_rest_of_group(
    s: RdsState,
    s1: RdsState,
    wa: Seq<bool>,
    a: u16,
    b: u16,
    c: u16,
    d: u16,
)
    requires
        wa == block_bits(block_of(a, OFFSET_A)),
        s1 == absorbed(s, wa),
        at_block(s1, BlockPos::B),
        s1.group.len() == 4,
        s1.group[0] == Some(a),
        s1.pi == Some(a),
        (s1.ps_buf, s1.rt_buf, s1.rt_ab) == (s.ps_buf, s.rt_buf, s.rt_ab),
    ensures
        ({
            let u = absorbed(s, group_bits(a, b, c, d));
            let read = RdsState {
                group: seq![Some(a), Some(b), Some(c), Some(d)],
                ..s
            }.after_group();
            &&& at_block(u, BlockPos::A)
            &&& u.pi == Some(a)
            &&& (u.ps_buf, u.rt_buf, u.rt_ab) == (read.ps_buf, read.rt_buf, read.rt_ab)
        }),
{
    let wb = block_bits(block_of(b, OFFSET_B));
    let wc = block_bits(block_of(c, OFFSET_C));
    let wd = block_bits(block_of(d, OFFSET_D));
    lemma_absorbed_concat(s, wa, wb);
    lemma_absorbed_concat(s, wa + wb, wc);
    lemma_absorbed_concat(s, wa + wb + wc, wd);
    lemma_good_block(s1, b, OFFSET_B);
    let s2 = absorbed(s1, wb);
    lemma_good_block(s2, c, OFFSET_C);
    let s3 = absorbed(s2, wc);
    lemma_good_block(s3, d, OFFSET_D);
    assert(s3.group.update(3, Some(d)) == seq![Some(a), Some(b), Some(c), Some(d)]);
}

proof fn lemma_name_group(b: u16, name: Seq<u8>, i: int)
    requires
        name.len() == 8,
        0 <= i < 4,
        b == i,
    ensures
        b >> 12 == 0,
        b & 0x3 == b,
        (name_pair(name, i) >> 8) as u8 == name[2 * i],
        (name_pair(name, i) & 0xFF) as u8 == name[2 * i + 1],
{
    lemma_pair_parts(name, i);
    assert(b >> 12 == 0 && b & 0x3 == b) by (bit_vector)
        requires
            b < 4,
    ;
}

/// After `n` groups the first `2 * n` characters of the name are in, and all once four groups are.
proof fn lemma_name_absorbed(pi: u16, name: Seq<u8>, n: nat)
    requires
        name.len() == 8,
        n >= 1,
    ensures
        ({
            let u = absorbed(fresh_state().fed(false), name_bits(pi, name, n));
            &&& at_block(u, BlockPos::A)
            &&& u.pi == Some(pi)
            &&& forall|k: int| 0 <= k < 8 && k < 2 * n ==> u.ps_buf[k] == name[k]
        }),
    decreases n,
{
    let start = fresh_state().fed(false);
    let m = (n - 1) as nat;
    let i = (m % 4) as u16;
    let pair = name_pair(name, i as int);
    let before = name_bits(pi, name, m);
    let bits = group_bits(pi, i, 0, pair);
    lemma_name_group(i, name, i as int);
    lemma_absorbed_concat(start, before, bits);
    if m == 0 {
        assert(before == Seq::<bool>::empty());
        lemma_first_block(pi);
        let wa = block_bits(block_of(pi, OFFSET_A));
        lemma_rest_of_group(start, absorbed(start, wa), wa, pi, i, 0, pair);
    } else {
        lemma_name_absorbed(pi, name, m);
        lemma_group_absorbed(absorbed(start, before), pi, i, 0, pair);
    }
    let u = absorbed(start, name_bits(pi, name, n));
    assert forall|k: int| 0 <= k < 8 && k < 2 * n implies u.ps_buf[k] == name[k] by {
        if k < 2 * m {
            assert(absorbed(start, before).ps_buf[k] == name[k]);
        }
    }
}

/// What was sent is received: from the levels that carry a station's code and name at least once,
/// a decoder reads that code and that name.
pub proof fn law_name_is_received(pi: u16, name: Seq<u8>, times: nat)
    requires
        name.len() == 8,
        times >= 1,
    ensures
        ({
            let s = decoded(fresh_state(), differential(name_bits(pi, name, 4 * times)));
            &&& s.pi == Some(pi)
            &&& s.ps_buf == name
            &&& s.synced
        }),
{
    lemma_levels_are_bits(name_bits(pi, name, 4 * times));
    lemma_name_absorbed(pi, name, 4 * times);
}

proof fn lemma_pair_parts(text: Seq<u8>, i: int)
    ensures
        (name_pair(text, i) >> 8) as u8 == text[2 * i],
        (name_pair(text, i) & 0xFF) as u8 == text[2 * i + 1],
{
    let x = text[2 * i];
    let y = text[2 * i + 1];
    let p = name_pair(text, i);
    assert((p >> 8) as u8 == x && (p & 0xFF) as u8 == y) by (bit_vector)
        requires
            p == ((x as u16) << 8) | (y as u16),
    ;
}

proof fn lemma_text_word(ab: bool, i: u16)
    requires
        i < 16,
    ensures
        text_word(ab, i) >> 12 == 2,
        (text_word(ab, i) >> 11) & 1 == 0,
        ((text_word(ab, i) >> 4) & 1 == 1) == ab,
        text_word(ab, i) & 0xF == i,
{
    let flag: u16 = if ab {
        0x10u16
    } else {
        0u16
    };
    let b = text_word(ab, i);
    assert(b >> 12 == 2 && (b >> 11) & 1 == 0 && ((b >> 4) & 1 == 1) == (flag == 0x10) && b & 0xF
        == i) by (bit_vector)
        requires
            i < 16,
            flag == 0 || flag == 0x10,
            b == 0x2000u16 | flag | i,
    ;
}

/// After `n` groups the first `4 * n` characters of the text are in, and all once sixteen groups
/// are.
proof fn lemma_text_absorbed(pi: u16, ab: bool, text: Seq<u8>, n: nat)
    requires
        text.len() == 64,
        n >= 1,
    ensures
        ({
            let u = absorbed(fresh_state().fed(false), text_bits(pi, ab, text, n));
            &&& at_block(u, BlockPos::A)
            &&& u.pi == Some(pi)
            &&& u.rt_ab == Some(ab)
            &&& forall|k: int| 0 <= k < 64 && k < 4 * n ==> u.rt_buf[k] == text[k]
        }),
    decreases n,
{
    let start = fresh_state().fed(false);
    let m = (n - 1) as nat;
    let i = m as int % 16;
    let b = text_word(ab, i as u16);
    let c = name_pair(text, 2 * i);
    let d = name_pair(text, 2 * i + 1);
    let before = text_bits(pi, ab, text, m);
    let bits = group_bits(pi, b, c, d);
    lemma_text_word(ab, i as u16);
    lemma_pair_parts(text, 2 * i);
    lemma_pair_parts(text, 2 * i + 1);
    lemma_absorbed_concat(start, before, bits);
    if m == 0 {
        assert(before == Seq::<bool>::empty());
        lemma_first_block(pi);
        let wa = block_bits(block_of(pi, OFFSET_A));
        lemma_rest_of_group(start, absorbed(start, wa), wa, pi, b, c, d);
    } else {
        lemma_text_absorbed(pi, ab, text, m);
        lemma_group_absorbed(absorbed(start, before), pi, b, c, d);
    }
    let u = absorbed(start, text_bits(pi, ab, text, n));
    assert forall|k: int| 0 <= k < 64 && k < 4 * n implies u.rt_buf[k] == text[k] by {
        if k < 4 * m {
            assert(absorbed(start, before).rt_buf[k] == text[k]);
        }
    }
}

/// What was sent is received: from the levels that carry a station's code and RadioText at least
/// once, a decoder reads that code and that text.
pub proof fn law_text_is_received(pi: u16, ab: bool, text: Seq<u8>, times: nat)
    requires
        text.len() == 64,
        times >= 1,
    ensures
        ({
            let s = decoded(fresh_state(), differential(text_bits(pi, ab, text, 16 * times)));
            &&& s.pi == Some(pi)
            &&& s.rt_buf == text
            &&& s.synced
        }),
{
    lemma_levels_are_bits(text_bits(pi, ab, text, 16 * times));
    lemma_text_absorbed(pi, ab, text, 16 * times);
}

/// The fields of the second word of a group, and the two characters of a word.
proof fn lemma_fields(b: u16, d: u16)
    ensures
        b >> 12 == b / 4096,
        (b >> 11) & 1 == b / 2048 % 2,
        (b >> 4) & 1 == b / 16 % 2,
        b & 0x3 == b % 4,
        b & 0xF == b % 16,
        (d >> 8) as u8 == d / 256,
        (d & 0xFF) as u8 == d % 256,
{
    assert(b >> 12 == b / 4096 && (b >> 11) & 1 == b / 2048 % 2 && (b >> 4) & 1 == b / 16 % 2 && b
        & 0x3 == b % 4 && b & 0xF == b % 16 && (d >> 8) as u8 == d / 256 && (d & 0xFF) as u8 == d
        % 256) by (bit_vector);
}

/// A group whose second word has four zero bits at its top carries two characters of the name,
/// whatever its other bits are (version, traffic, programme type, music, decoder): they come into
/// the places that the lowest two bits give, the other characters stay, and so does the text. Where
/// the last block was lost nothing changes.
pub proof fn law_name_group_writes_its_pair(s: RdsState, a: u16, b: u16)
    requires
        s.valid(),
        s.group[0] == Some(a),
        s.group[1] == Some(b),
        b < 4096,
    ensures
        ({
            let t = s.after_group();
            let at = 2 * (b % 4);
            &&& t.ps_buf.len() == 8
            &&& s.group[3] matches Some(d) ==> t.ps_buf[at] == d / 256 && t.ps_buf[at + 1] == d
                % 256
            &&& forall|k: int|
                0 <= k < 8 && (s.group[3] is None || k != at && k != at + 1)
                    ==> #[trigger] t.ps_buf[k] == s.ps_buf[k]
            &&& (t.rt_buf, t.rt_ab, t.pi) == (s.rt_buf, s.rt_ab, s.pi)
        }),
{
    lemma_fields(b, if s.group[3] is Some {
        s.group[3]->0
    } else {
        0
    });
}

/// A group 2A carries four characters of RadioText, whatever its bits of traffic and programme type
/// are: the lowest four bits say which. Each of its last two blocks counts for itself. Where the A/B
/// flag differs from the one before, everything else becomes spaces.
#[verifier::rlimit(40)]
pub proof fn law_text_group_writes_four_characters(s: RdsState, a: u16, b: u16)
    requires
        s.valid(),
        s.group[0] == Some(a),
        s.group[1] == Some(b),
        b / 2048 == 4,
    ensures
        ({
            let t = s.after_group();
            let at = 4 * (b % 16);
            let same = s.rt_ab == Some(b / 16 % 2 == 1);
            &&& t.rt_buf.len() == 64
            &&& t.rt_ab == Some(b / 16 % 2 == 1)
            &&& s.group[2] matches Some(c) ==> t.rt_buf[at] == c / 256 && t.rt_buf[at + 1] == c
                % 256
            &&& s.group[3] matches Some(d) ==> t.rt_buf[at + 2] == d / 256 && t.rt_buf[at + 3] == d
                % 256
            &&& forall|k: int|
                0 <= k < 64 && (s.group[2] is None || k != at && k != at + 1) && (s.group[3] is None
                    || k != at + 2 && k != at + 3) ==> #[trigger] t.rt_buf[k] == if same {
                    s.rt_buf[k]
                } else {
                    32u8
                }
            &&& (t.ps_buf, t.pi) == (s.ps_buf, s.pi)
        }),
{
    lemma_fields(b, if s.group[3] is Some {
        s.group[3]->0
    } else {
        0
    });
    lemma_fields(b, if s.group[2] is Some {
        s.group[2]->0
    } else {
        0
    });
}

/// A group 2B carries two characters of RadioText in its last block, so that the text has half the
/// length.
pub proof fn law_short_text_group_writes_two_characters(s: RdsState, a: u16, b: u16)
    requires
        s.valid(),
        s.group[0] == Some(a),
        s.group[1] == Some(b),
        b / 2048 == 5,
    ensures
        ({
            let t = s.after_group();
            let at = 2 * (b % 16);
            let same = s.rt_ab == Some(b / 16 % 2 == 1);
            &&& t.rt_buf.len() == 64
            &&& t.rt_ab == Some(b / 16 % 2 == 1)
            &&& s.group[3] matches Some(d) ==> t.rt_buf[at] == d / 256 && t.rt_buf[at + 1] == d
                % 256
            &&& forall|k: int|
                0 <= k < 64 && (s.group[3] is None || k != at && k != at + 1)
                    ==> #[trigger] t.rt_buf[k] == if same {
                    s.rt_buf[k]
                } else {
                    32u8
                }
            &&& (t.ps_buf, t.pi) == (s.ps_buf, s.pi)
        }),
{
    lemma_fields(b, if s.group[3] is Some {
        s.group[3]->0
    } else {
        0
    });
}

/// Groups of all other types change neither name nor text, and a group without its first or its
/// second block changes nothing.
pub proof fn law_other_groups_change_nothing(s: RdsState)
    requires
        s.valid(),
        s.group[0] is None || s.group[1] is None || s.group[1]->0 / 4096 == 1 || s.group[1]->0 / 4096
            >= 3,
    ensures
        s.after_group() == s,
{
    lemma_fields(if s.group[1] is Some {
        s.group[1]->0
    } else {
        0
    }, 0);
}

/// The words of a group that a station sends.
pub struct Group {
    pub a: u16,
    pub b: u16,
    pub c: u16,
    pub d: u16,
}

/// The bits of a group as a station sends it, each block with the offset word of its place; at the
/// third place groups of version B have their own.
pub open spec fn sent_group(g: Group) -> Seq<bool> {
    block_bits(block_of(g.a, 0x0FC)) + block_bits(block_of(g.b, 0x198)) + block_bits(
        block_of(
            g.c,
            if g.b / 2048 % 2 == 1 {
                0x350
            } else {
                0x168
            },
        ),
    ) + block_bits(block_of(g.d, 0x1B4))
}

/// The bits of groups that a station sends one after the other.
pub open spec fn sent(groups: Seq<Group>) -> Seq<bool>
    decreases groups.len(),
{
    if groups.len() == 0 {
        Seq::empty()
    } else {
        sent(groups.drop_last()) + sent_group(groups.last())
    }
}

/// The state with a group in it, just before it is read.
spec fn holding(s: RdsState, g: Group) -> RdsState {
    RdsState { group: seq![Some(g.a), Some(g.b), Some(g.c), Some(g.d)], ..s }
}

/// The blocks B, C and D of a group after a state that has block A.
#[verifier::rlimit(40)]
proof fn lemma_rest_of_sent_group(s: RdsState, s1: RdsState, g: Group)
    requires
        s1 == absorbed(s, block_bits(block_of(g.a, 0x0FC))),
        at_block(s1, BlockPos::B),
        s1.group.len() == 4,
        s1.group[0] == Some(g.a),
        s1.pi == Some(g.a),
        (s1.ps_buf, s1.rt_buf, s1.rt_ab) == (s.ps_buf, s.rt_buf, s.rt_ab),
    ensures
        ({
            let u = absorbed(s, sent_group(g));
            let read = holding(s, g).after_group();
            &&& at_block(u, BlockPos::A)
            &&& u.pi == Some(g.a)
            &&& (u.ps_buf, u.rt_buf, u.rt_ab) == (read.ps_buf, read.rt_buf, read.rt_ab)
        }),
{
    let offset: u16 = if g.b / 2048 % 2 == 1 {
        0x350
    } else {
        0x168
    };
    let wa = block_bits(block_of(g.a, 0x0FC));
    let wb = block_bits(block_of(g.b, 0x198));
    let wc = block_bits(block_of(g.c, offset));
    let wd = block_bits(block_of(g.d, 0x1B4));
    lemma_absorbed_concat(s, wa, wb);
    lemma_absorbed_concat(s, wa + wb, wc);
    lemma_absorbed_concat(s, wa + wb + wc, wd);
    lemma_good_block(s1, g.b, 0x198);
    let s2 = absorbed(s1, wb);
    lemma_good_block(s2, g.c, offset);
    let s3 = absorbed(s2, wc);
    lemma_good_block(s3, g.d, 0x1B4);
    assert(s3.group.update(3, Some(g.d)) == holding(s, g).group);
}

/// The state of a fresh decoder after the groups that a station sends.
spec fn after_sent(groups: Seq<Group>) -> RdsState {
    absorbed(fresh_state().fed(false), sent(groups))
}

/// Each group that is sent is read, the first as well.
#[verifier::rlimit(40)]
proof fn lemma_sent_is_read(groups: Seq<Group>)
    requires
        groups.len() >= 1,
    ensures
        ({
            let u = after_sent(groups);
            let before = after_sent(groups.drop_last());
            let read = holding(before, groups.last()).after_group();
            &&& before.valid()
            &&& at_block(u, BlockPos::A)
            &&& u.pi == Some(groups.last().a)
            &&& (u.ps_buf, u.rt_buf, u.rt_ab) == (read.ps_buf, read.rt_buf, read.rt_ab)
        }),
    decreases groups.len(),
{
    let start = fresh_state().fed(false);
    let front = groups.drop_last();
    let g = groups.last();
    let before = after_sent(front);
    lemma_absorbed_concat(start, sent(front), sent_group(g));
    if front.len() == 0 {
        assert(sent(front) == Seq::<bool>::empty());
        lemma_first_block(g.a);
    } else {
        lemma_sent_is_read(front);
        lemma_good_block(before, g.a, 0x0FC);
    }
    lemma_rest_of_sent_group(before, absorbed(before, block_bits(block_of(g.a, 0x0FC))), g);
}

/// The group carries the `k`-th character of the name.
pub open spec fn names(g: Group, k: int) -> bool {
    g.b < 4096 && g.b % 4 == k / 2
}

/// Some group carries the `k`-th character of the name.
pub open spec fn is_named(groups: Seq<Group>, k: int) -> bool {
    exists|i: int| 0 <= i < groups.len() && #[trigger] names(groups[i], k)
}

#[verifier::rlimit(40)]
proof fn lemma_name_among_groups(groups: Seq<Group>, name: Seq<u8>)
    requires
        name.len() == 8,
        forall|i: int|
            0 <= i < groups.len() && (#[trigger] groups[i]).b < 4096 ==> groups[i].d == 256
                * name[2 * (groups[i].b as int % 4)] + name[2 * (groups[i].b as int % 4) + 1],
    ensures
        ({
            let u = after_sent(groups);
            forall|k: int, i: int|
                0 <= k < 8 && 0 <= i < groups.len() && #[trigger] names(groups[i], k)
                    ==> u.ps_buf[k] == name[k]
        }),
    decreases groups.len(),
{
    if groups.len() > 0 {
        let front = groups.drop_last();
        let g = groups.last();
        assert forall|i: int| 0 <= i < front.len() && (#[trigger] front[i]).b < 4096 implies front[i].d
            == 256 * name[2 * (front[i].b as int % 4)] + name[2 * (front[i].b as int % 4) + 1] by {
            assert(front[i] == groups[i]);
        }
        lemma_name_among_groups(front, name);
        lemma_sent_is_read(groups);
        let before = after_sent(front);
        let held = holding(before, g);
        assert(groups[groups.len() - 1] == g);
        if g.b < 4096 {
            law_name_group_writes_its_pair(held, g.a, g.b);
        } else if g.b / 2048 == 4 {
            law_text_group_writes_four_characters(held, g.a, g.b);
        } else if g.b / 2048 == 5 {
            law_short_text_group_writes_two_characters(held, g.a, g.b);
        } else {
            law_other_groups_change_nothing(held);
        }
        let u = after_sent(groups);
        assert forall|k: int, i: int|
            0 <= k < 8 && 0 <= i < groups.len() && #[trigger] names(groups[i], k) implies u.ps_buf[k]
            == name[k] by {
            if i < front.len() {
                assert(names(front[i], k));
                assert(before.ps_buf[k] == name[k]);
            }
            assert(held.after_group().ps_buf[k] == name[k]);
        }
    }
}

/// The name is received out of any mixture of groups: where all groups that carry parts of a name
/// carry those of one name, with any flags beside, and each part comes once at least, a decoder that
/// had read nothing before has that name. Its code is the one that came last.
pub proof fn law_name_is_received_among_any_groups(groups: Seq<Group>, name: Seq<u8>)
    requires
        name.len() == 8,
        forall|i: int|
            0 <= i < groups.len() && (#[trigger] groups[i]).b < 4096 ==> groups[i].d == 256
                * name[2 * (groups[i].b as int % 4)] + name[2 * (groups[i].b as int % 4) + 1],
        forall|k: int| 0 <= k < 8 ==> #[trigger] is_named(groups, k),
    ensures
        ({
            let s = decoded(fresh_state(), differential(sent(groups)));
            &&& s.ps_buf == name
            &&& s.pi == Some(groups.last().a)
            &&& s.synced
        }),
{
    assert(is_named(groups, 0));
    lemma_levels_are_bits(sent(groups));
    lemma_sent_is_read(groups);
    lemma_name_among_groups(groups, name);
    let s = after_sent(groups);
    assert forall|k: int| 0 <= k < 8 implies s.ps_buf[k] == name[k] by {
        assert(is_named(groups, k));
        let i = choose|i: int| 0 <= i < groups.len() && #[trigger] names(groups[i], k);
        assert(names(groups[i], k));
    }
    assert(s.ps_buf =~= name);
}

/// The group carries the `k`-th character of a text of 64.
pub open spec fn tells(g: Group, k: int) -> bool {
    g.b / 2048 == 4 && g.b % 16 == k / 4
}

/// Some group carries the `k`-th character of the text.
pub open spec fn is_told(groups: Seq<Group>, k: int) -> bool {
    exists|i: int| 0 <= i < groups.len() && #[trigger] tells(groups[i], k)
}

/// The group carries four characters of the text, with the flag of the text.
pub open spec fn is_part_of(g: Group, text: Seq<u8>, ab: bool) -> bool {
    let at = 4 * (g.b as int % 16);
    &&& g.b / 2048 == 4
    &&& (g.b / 16 % 2 == 1) == ab
    &&& g.c == 256 * text[at] + text[at + 1]
    &&& g.d == 256 * text[at + 2] + text[at + 3]
}

#[verifier::rlimit(40)]
proof fn lemma_text_among_groups(groups: Seq<Group>, text: Seq<u8>, ab: bool)
    requires
        text.len() == 64,
        forall|i: int|
            0 <= i < groups.len() && (#[trigger] groups[i]).b / 4096 == 2 ==> is_part_of(
                groups[i],
                text,
                ab,
            ),
    ensures
        ({
            let u = after_sent(groups);
            &&& forall|k: int, i: int|
                0 <= k < 64 && 0 <= i < groups.len() && #[trigger] tells(groups[i], k)
                    ==> u.rt_buf[k] == text[k]
            &&& u.rt_ab is None || u.rt_ab == Some(ab)
            &&& u.rt_ab is None ==> forall|i: int, k: int|
                0 <= i < groups.len() ==> !#[trigger] tells(groups[i], k)
        }),
    decreases groups.len(),
{
    if groups.len() > 0 {
        let front = groups.drop_last();
        let g = groups.last();
        assert forall|i: int| 0 <= i < front.len() && (#[trigger] front[i]).b / 4096
            == 2 implies is_part_of(front[i], text, ab) by {
            assert(front[i] == groups[i]);
        }
        lemma_text_among_groups(front, text, ab);
        lemma_sent_is_read(groups);
        let before = after_sent(front);
        let held = holding(before, g);
        assert(groups[groups.len() - 1] == g);
        if g.b < 4096 {
            law_name_group_writes_its_pair(held, g.a, g.b);
        } else if g.b / 4096 == 2 {
            law_text_group_writes_four_characters(held, g.a, g.b);
        } else {
            law_other_groups_change_nothing(held);
        }
        let u = after_sent(groups);
        let read = held.after_group();
        assert(u.rt_buf == read.rt_buf && u.rt_ab == read.rt_ab);
        assert forall|k: int, i: int|
            0 <= k < 64 && 0 <= i < groups.len() && #[trigger] tells(groups[i], k) implies u.rt_buf[k]
            == text[k] by {
            if i < front.len() {
                assert(tells(front[i], k));
                assert(before.rt_buf[k] == text[k]);
                assert(before.rt_ab == Some(ab));
            }
            assert(read.rt_buf[k] == text[k]);
        }
        if u.rt_ab is None {
            assert forall|i: int, k: int| 0 <= i < groups.len() implies !#[trigger] tells(
                groups[i],
                k,
            ) by {
                if i < front.len() {
                    assert(front[i] == groups[i]);
                    assert(!tells(front[i], k));
                }
            }
        }
    }
}

/// The text is received out of any mixture of groups: where all groups of RadioText carry parts of
/// one text under one flag, with any programme type beside, and each part comes once at least, a
/// decoder that had read nothing before has that text.
pub proof fn law_text_is_received_among_any_groups(groups: Seq<Group>, text: Seq<u8>, ab: bool)
    requires
        text.len() == 64,
        forall|i: int|
            0 <= i < groups.len() && (#[trigger] groups[i]).b / 4096 == 2 ==> is_part_of(
                groups[i],
                text,
                ab,
            ),
        forall|k: int| 0 <= k < 64 ==> #[trigger] is_told(groups, k),
    ensures
        ({
            let s = decoded(fresh_state(), differential(sent(groups)));
            &&& s.rt_buf == text
            &&& s.pi == Some(groups.last().a)
            &&& s.synced
        }),
{
    assert(is_told(groups, 0));
    lemma_levels_are_bits(sent(groups));
    lemma_sent_is_read(groups);
    lemma_text_among_groups(groups, text, ab);
    let s = after_sent(groups);
    assert forall|k: int| 0 <= k < 64 implies s.rt_buf[k] == text[k] by {
        assert(is_told(groups, k));
        let i = choose|i: int| 0 <= i < groups.len() && #[trigger] tells(groups[i], k);
        assert(tells(groups[i], k));
    }
    assert(s.rt_buf =~= text);
}

/// What is shown of a buffer: its characters up to the carriage return, in their order, with a space
/// for each that cannot be printed, and nothing but such spaces left out at the end.
#[verifier::rlimit(40)]
pub proof fn law_shown_text_is_what_was_sent(buf: Seq<u8>)
    ensures
        ({
            let t = rds_text(buf);
            &&& t.len() <= buf.len()
            &&& forall|i: int|
                0 <= i < t.len() ==> buf[i] != 13 && #[trigger] t[i] == if 32 <= buf[i] <= 126 {
                    buf[i] as char
                } else {
                    ' '
                }
            &&& t.len() > 0 ==> t.last() != ' '
            &&& forall|i: int|
                #![trigger buf[i]]
                t.len() <= i < buf.len() && (forall|j: int|
                    #![trigger buf[j]]
                    t.len() <= j <= i ==> buf[j] != 13) ==> buf[i] <= 32 || buf[i] >= 127
        }),
{
    let end = lemma_end_exists(buf, 0);
    lemma_text_end(buf, 0, end);
    let full = buf.take(end).map_values(|c: u8| printable(c));
    let n = lemma_trim_exists(full);
    lemma_trim(full, n);
    assert forall|i: int|
        #![trigger buf[i]]
        n <= i < buf.len() && (forall|j: int| #![trigger buf[j]] n <= j <= i ==> buf[j] != 13) implies buf[i]
        <= 32 || buf[i] >= 127 by {
        if i < end {
            assert(full[i] == ' ');
        } else {
            assert(buf[end] == 13);
        }
    }
}

proof fn lemma_end_exists(buf: Seq<u8>, from: int) -> (end: int)
    requires
        0 <= from <= buf.len(),
    ensures
        from <= end <= buf.len(),
        forall|i: int| from <= i < end ==> buf[i] != 0x0D,
        end == buf.len() || buf[end] == 0x0D,
    decreases buf.len() - from,
{
    if from == buf.len() || buf[from] == 0x0D {
        from
    } else {
        lemma_end_exists(buf, from + 1)
    }
}

proof fn lemma_trim_exists(s: Seq<char>) -> (n: int)
    ensures
        0 <= n <= s.len(),
        forall|i: int| n <= i < s.len() ==> s[i] == ' ',
        n == 0 || s[n - 1] != ' ',
    decreases s.len(),
{
    if s.len() == 0 || s.last() != ' ' {
        s.len() as int
    } else {
        let n = lemma_trim_exists(s.drop_last());
        assert forall|i: int| n <= i < s.len() implies s[i] == ' ' by {
            if i < s.len() - 1 {
                assert(s[i] == s.drop_last()[i]);
            }
        }
        n
    }
}

/// Synchronisation is held through five bad blocks in a row and given up at the sixth; a good block
/// starts the count again. Every block is counted once, as good or as bad, and the place goes on.
pub proof fn law_sync_survives_five_bad_blocks(s: RdsState)
    requires
        s.valid(),
        s.synced,
        s.good_blocks < u32::MAX,
        s.bad_total < u32::MAX,
    ensures
        ({
            let t = s.after_block();
            let good = s.read_word() is Some;
            &&& t.synced == (good || s.bad_blocks < 5)
            &&& t.bad_blocks == if good || s.bad_blocks >= 5 {
                0
            } else {
                s.bad_blocks + 1
            }
            &&& t.good_blocks == s.good_blocks + if good {
                1int
            } else {
                0
            }
            &&& t.bad_total == s.bad_total + if good {
                0int
            } else {
                1
            }
            &&& good ==> t.bits_since_good == 0
            &&& !good ==> t.bits_since_good == s.bits_since_good
            &&& (t.pos.index() - s.pos.index()) % 4 == 1
        }),
{
    let w = s.after_word(s.read_word());
    if w.group[1] is Some {
        lemma_group_fields(w.group[1]->0);
    }
}

/// After 1300 bits without a good block the clock is moved by half a symbol: the search starts anew
/// with an empty register. Before that each bit that finds nothing counts as one.
pub proof fn law_clock_is_moved_after_a_second(s: RdsState, level: bool)
    requires
        s.valid(),
        s.last_bit is Some,
        s.filled >= 25,
    ensures
        s.asks_half_shift(level) <==> s.bits_since_good == 1300,
        s.bits_since_good == 1300 ==> {
            let t = s.fed(level);
            !t.synced && t.filled == 0 && t.bits_since_good == 0
        },
        s.bits_since_good < 1300 ==> {
            let t = s.fed(level);
            t.bits_since_good == s.bits_since_good + 1 || t.bits_since_good == 0 && t.good_blocks
                >= s.good_blocks && t.synced
        },
{
    law_validity_is_kept(s, level);
}

/// Before the first level nothing is read: no code, no name, no text, no synchronisation, and nothing
/// is counted.
pub proof fn law_nothing_is_read_at_first()
    ensures
        ({
            let s = fresh_state();
            &&& s.valid()
            &&& s.pi is None
            &&& rds_text(s.ps_buf).len() == 0
            &&& rds_text(s.rt_buf).len() == 0
            &&& s.rt_ab is None
            &&& !s.synced
            &&& s.filled == 0
            &&& s.last_bit is None
            &&& (s.good_blocks, s.bad_total, s.sync_count, s.bad_blocks, s.bits_since_good) == (
                0u32,
                0u32,
                0u32,
                0u32,
                0u32,
            )
        }),
{
    lemma_spaces_are_empty_text(8);
    lemma_spaces_are_empty_text(64);
}

/// A search that finds a block A begins a group with it: it is counted as good and as one more
/// synchronisation, and the blocks that follow are expected in their order. A search that finds none
/// changes nothing.
pub proof fn law_search_begins_a_group(s: RdsState)
    requires
        s.good_blocks < u32::MAX,
        s.sync_count < u32::MAX,
    ensures
        ({
            let t = s.after_search();
            match block_value(s.shift, 0x0FC) {
                None => t == s,
                Some(pi) => {
                    &&& t.synced
                    &&& t.pos == BlockPos::B
                    &&& t.bits_to_block == 26
                    &&& t.group == seq![Some(pi), None, None, None]
                    &&& t.pi == Some(pi)
                    &&& t.good_blocks == s.good_blocks + 1
                    &&& t.sync_count == s.sync_count + 1
                    &&& (t.bad_blocks, t.bits_since_good, t.bad_total) == (0u32, 0u32, s.bad_total)
                    &&& (t.ps_buf, t.rt_buf, t.rt_ab) == (s.ps_buf, s.rt_buf, s.rt_ab)
                },
            }
        }),
{
}

/// A group is forgotten once its last block has come: what was lost of the next one is not taken from
/// it.
pub proof fn law_group_is_forgotten_at_its_end(s: RdsState, i: int)
    requires
        s.valid(),
        s.pos == BlockPos::D,
        0 <= i < 4,
    ensures
        s.after_block().group.len() == 4,
        s.after_block().group[i] is None,
        s.after_block().pos == BlockPos::A,
{
}

/// A block that is lost leaves its place in the group empty, and a block that passed fills it.
pub proof fn law_block_fills_its_place(s: RdsState)
    requires
        s.valid(),
        s.pos != BlockPos::D,
    ensures
        ({
            let t = s.after_block();
            let i: int = match s.pos {
                BlockPos::A => 0,
                BlockPos::B => 1,
                _ => 2,
            };
            &&& t.group[i] == s.read_word()
            &&& forall|j: int| 0 <= j < 4 && j != i ==> #[trigger] t.group[j] == s.group[j]
            &&& (t.ps_buf, t.rt_buf, t.rt_ab) == (s.ps_buf, s.rt_buf, s.rt_ab)
            &&& s.pos == BlockPos::A && s.read_word() is Some ==> t.pi == s.read_word()
            &&& s.pos != BlockPos::A || s.read_word() is None ==> t.pi == s.pi
        }),
{
}

} // verus!

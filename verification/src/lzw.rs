//! Variable-width LZW as the animated bitmap format uses it.
//!
//! The compressor is stated as a machine over a mathematical dictionary that
//! maps a pair (code of a string, next symbol) to the code of the longer
//! string.  The executable compressor keeps that dictionary in flat tables and
//! is proved to emit exactly the bits of the machine.

use crate::bitstream::{lemma_small_powers, BitString, BitWriter};
use vstd::arithmetic::power2::{lemma2_to64, lemma_pow2_pos, lemma_pow2_unfold, pow2};
use vstd::prelude::*;

verus! {

/// Codes never grow past twelve bits.
pub const MAX_WIDTH: u32 = 12;

/// Number of codes that twelve bits can hold.
pub const MAX_CODES: u16 = 4096;

/// The code that tells the reader to forget its dictionary.
pub open spec fn clear_code(mcs: int) -> int {
    pow2(mcs as nat) as int
}

/// The code that ends the data of one image.
pub open spec fn end_code(mcs: int) -> int {
    clear_code(mcs) + 1
}

/// The first code that stands for a string of two or more symbols.
pub open spec fn first_free(mcs: int) -> int {
    clear_code(mcs) + 2
}

/// The compressor between two input symbols.
pub struct LzwState {
    /// (code of a string, next symbol) to the code of the string so extended.
    pub table: Map<(int, int), int>,
    /// The code that the next new string gets.
    pub next_code: int,
    /// Bits per emitted code.
    pub width: int,
    /// Code of the longest known string that ends the input read so far, or
    /// -1 before the first symbol.
    pub prefix: int,
    /// Everything emitted so far.
    pub bits: BitString,
}

/// Before the first symbol: the clear code has been emitted.
pub open spec fn lzw_start(mcs: int) -> LzwState {
    LzwState {
        table: Map::empty(),
        next_code: first_free(mcs),
        width: mcs + 1,
        prefix: -1,
        bits: BitString::empty().append(clear_code(mcs) as nat, (mcs + 1) as nat),
    }
}

/// Reading symbol `k`.  A known extension only lengthens the match.  Otherwise
/// the match is emitted and the extension enters the dictionary, the width
/// growing by one bit once the new code no longer fits; with all 4096 codes in
/// use a clear code follows instead and the dictionary starts afresh.
pub open spec fn lzw_step(mcs: int, s: LzwState, k: int) -> LzwState {
    if s.prefix < 0 {
        LzwState { prefix: k, ..s }
    } else if s.table.contains_key((s.prefix, k)) {
        LzwState { prefix: s.table[(s.prefix, k)], ..s }
    } else {
        let emitted = s.bits.append(s.prefix as nat, s.width as nat);
        if s.next_code < 4096 {
            LzwState {
                table: s.table.insert((s.prefix, k), s.next_code),
                next_code: s.next_code + 1,
                width: if s.next_code == pow2(s.width as nat) && s.width < 12 {
                    s.width + 1
                } else {
                    s.width
                },
                prefix: k,
                bits: emitted,
            }
        } else {
            LzwState {
                table: Map::empty(),
                next_code: first_free(mcs),
                width: mcs + 1,
                prefix: k,
                bits: emitted.append(clear_code(mcs) as nat, s.width as nat),
            }
        }
    }
}

/// The compressor after the first `n` symbols of `input`.
pub open spec fn lzw_run(mcs: int, input: Seq<u8>, n: int) -> LzwState
    decreases n,
{
    if n <= 0 {
        lzw_start(mcs)
    } else {
        lzw_step(mcs, lzw_run(mcs, input, n - 1), input[n - 1] as int)
    }
}

/// At the end of the input the pending match is emitted, then the end code,
/// in the width that a reader has reached by then.
pub open spec fn lzw_finish(mcs: int, s: LzwState) -> BitString {
    if s.prefix < 0 {
        s.bits.append(end_code(mcs) as nat, s.width as nat)
    } else {
        let emitted = s.bits.append(s.prefix as nat, s.width as nat);
        let width = if s.next_code == pow2(s.width as nat) && s.width < 12 {
            s.width + 1
        } else {
            s.width
        };
        emitted.append(end_code(mcs) as nat, width as nat)
    }
}

/// The code stream of `input` as one bit string.
pub open spec fn lzw_bits(mcs: int, input: Seq<u8>) -> BitString {
    lzw_finish(mcs, lzw_run(mcs, input, input.len() as int))
}

/// The compressed form of `input`: its code stream packed into bytes.
pub open spec fn lzw_bytes(mcs: int, input: Seq<u8>) -> Seq<u8> {
    lzw_bits(mcs, input).bytes()
}

/// Every symbol is below the clear code.
pub open spec fn symbols_fit(mcs: int, input: Seq<u8>) -> bool {
    forall|i: int| 0 <= i < input.len() ==> (#[trigger] input[i] as int) < clear_code(mcs)
}

/// What holds of the machine whenever its symbols fit: codes fit their width.
pub open spec fn state_ok(mcs: int, s: LzwState) -> bool {
    &&& -1 <= s.prefix < s.next_code
    &&& first_free(mcs) <= s.next_code <= 4096
    &&& mcs + 1 <= s.width <= 12
    &&& s.next_code <= pow2(s.width as nat)
    &&& forall|key: (int, int)| #[trigger]
        s.table.contains_key(key) ==> first_free(mcs) <= s.table[key] < s.next_code
}

/// The machine starts in order, and the clear code of a symbol size of 2 to
/// 8 bits lies between 4 and 256.
pub proof fn lemma_start_ok(mcs: int)
    requires
        2 <= mcs <= 8,
    ensures
        state_ok(mcs, lzw_start(mcs)),
        4 <= clear_code(mcs) <= 256,
        pow2((mcs + 1) as nat) == 2 * clear_code(mcs),
{
    lemma2_to64();
    lemma_pow2_unfold((mcs + 1) as nat);
    assert(mcs == 2 || mcs == 3 || mcs == 4 || mcs == 5 || mcs == 6 || mcs == 7 || mcs == 8);
}

/// A symbol below the clear code keeps the machine in order.
pub proof fn lemma_step_ok(mcs: int, s: LzwState, k: int)
    requires
        2 <= mcs <= 8,
        state_ok(mcs, s),
        0 <= k < clear_code(mcs),
    ensures
        state_ok(mcs, lzw_step(mcs, s, k)),
{
    lemma_start_ok(mcs);
    let t = lzw_step(mcs, s, k);
    if s.prefix >= 0 && !s.table.contains_key((s.prefix, k)) && s.next_code < 4096 {
        lemma2_to64();
        if s.next_code == pow2(s.width as nat) && s.width < 12 {
            lemma_pow2_unfold((s.width + 1) as nat);
        }
        assert forall|key: (int, int)| #[trigger]
            t.table.contains_key(key) implies first_free(mcs) <= t.table[key] < t.next_code by {
            if key != (s.prefix, k) {
                assert(s.table.contains_key(key));
            }
        }
    }
}

/// Whatever the input, as long as its symbols fit: no code that the machine
/// emits is too large for the width it is emitted in, and the width never
/// exceeds twelve bits.
pub proof fn lemma_run_ok(mcs: int, input: Seq<u8>, n: int)
    requires
        2 <= mcs <= 8,
        symbols_fit(mcs, input),
        0 <= n <= input.len(),
    ensures
        state_ok(mcs, lzw_run(mcs, input, n)),
    decreases n,
{
    if n <= 0 {
        lemma_start_ok(mcs);
    } else {
        lemma_run_ok(mcs, input, n - 1);
        lemma_step_ok(mcs, lzw_run(mcs, input, n - 1), input[n - 1] as int);
    }
}

/// The dictionary of the executable compressor.
///
/// `cells` is indexed by `prefix * 256 + symbol` and is never cleared: what a
/// cell holds counts only if the reverse tables confirm it for a code in use.
pub struct LzwDict {
    cells: Vec<u16>,
    rev_prefix: Vec<u16>,
    rev_symbol: Vec<u8>,
    first: u16,
    next: u16,
    map: Ghost<Map<(int, int), int>>,
}

impl LzwDict {
    /// The dictionary as the machine sees it.
    pub closed spec fn view(&self) -> Map<(int, int), int> {
        self.map@
    }

    /// The code that the next entry gets.
    pub closed spec fn next_code(&self) -> int {
        self.next as int
    }

    /// The code that the first entry after a reset gets.
    pub closed spec fn first_code(&self) -> int {
        self.first as int
    }

    pub closed spec fn wf(&self) -> bool {
        &&& self.cells.len() == 1048576
        &&& self.rev_prefix.len() == 4096
        &&& self.rev_symbol.len() == 4096
        &&& 1 <= self.first <= self.next <= 4096
        &&& forall|c: int|
            self.first <= c < self.next ==> {
                &&& (#[trigger] self.rev_prefix[c]) < 4096
                &&& self.map@.contains_key((self.rev_prefix[c] as int, self.rev_symbol[c] as int))
                &&& self.map@[(self.rev_prefix[c] as int, self.rev_symbol[c] as int)] == c
                &&& self.cells[self.rev_prefix[c] * 256 + self.rev_symbol[c]] == c
            }
        &&& forall|key: (int, int)| #[trigger]
            self.map@.contains_key(key) ==> {
                &&& self.first <= self.map@[key] < self.next
                &&& self.rev_prefix[self.map@[key]] == key.0
                &&& self.rev_symbol[self.map@[key]] == key.1
            }
    }

    /// An empty dictionary whose entries get the codes from `first` on.
    pub fn new(first: u16) -> (d: LzwDict)
        requires
            1 <= first <= 4096,
        ensures
            d.wf(),
            d@ == Map::<(int, int), int>::empty(),
            d.next_code() == first,
            d.first_code() == first,
    {
        LzwDict {
            cells: vec![0u16; 1048576],
            rev_prefix: vec![0u16; 4096],
            rev_symbol: vec![0u8; 4096],
            first,
            next: first,
            map: Ghost(Map::empty()),
        }
    }

    /// Forgets every entry.
    pub fn reset(&mut self)
        requires
            old(self).wf(),
        ensures
            final(self).wf(),
            final(self)@ == Map::<(int, int), int>::empty(),
            final(self).next_code() == old(self).first_code(),
            final(self).first_code() == old(self).first_code(),
    {
        self.next = self.first;
        self.map = Ghost(Map::empty());
    }

    pub fn next(&self) -> (n: u16)
        requires
            self.wf(),
        ensures
            n == self.next_code(),
            self.first_code() <= n <= 4096,
    {
        self.next
    }

    /// The code of the string `prefix` extended by `symbol`, if it has one.
    pub fn lookup(&self, prefix: u16, symbol: u8) -> (r: Option<u16>)
        requires
            self.wf(),
            prefix < 4096,
        ensures
            match r {
                Some(c) => self@.contains_key((prefix as int, symbol as int)) && self@[(
                    prefix as int,
                    symbol as int,
                )] == c,
                None => !self@.contains_key((prefix as int, symbol as int)),
            },
    {
        let c = self.cells[prefix as usize * 256 + symbol as usize];
        if c >= self.first && c < self.next && self.rev_prefix[c as usize] == prefix
            && self.rev_symbol[c as usize] == symbol {
            Some(c)
        } else {
            proof {
                let key = (prefix as int, symbol as int);
                if self.map@.contains_key(key) {
                    let held = self.map@[key];
                    assert(self.rev_prefix[held] == prefix);
                    assert(self.cells[self.rev_prefix[held] * 256 + self.rev_symbol[held]] == held);
                    assert(false);
                }
            }
            None
        }
    }

    /// Gives the string `prefix` extended by `symbol` the next code.
    pub fn insert(&mut self, prefix: u16, symbol: u8)
        requires
            old(self).wf(),
            prefix < 4096,
            old(self).next_code() < 4096,
            !old(self)@.contains_key((prefix as int, symbol as int)),
        ensures
            final(self).wf(),
            final(self)@ == old(self)@.insert(
                (prefix as int, symbol as int),
                old(self).next_code(),
            ),
            final(self).next_code() == old(self).next_code() + 1,
            final(self).first_code() == old(self).first_code(),
    {
        let code = self.next;
        let ghost before = *self;
        let ghost key = (prefix as int, symbol as int);
        self.cells.set(prefix as usize * 256 + symbol as usize, code);
        self.rev_prefix.set(code as usize, prefix);
        self.rev_symbol.set(code as usize, symbol);
        self.next = code + 1;
        self.map = Ghost(before.map@.insert(key, code as int));
        proof {
            assert forall|c: int| self.first <= c < self.next implies {
                &&& (#[trigger] self.rev_prefix[c]) < 4096
                &&& self.map@.contains_key((self.rev_prefix[c] as int, self.rev_symbol[c] as int))
                &&& self.map@[(self.rev_prefix[c] as int, self.rev_symbol[c] as int)] == c
                &&& self.cells[self.rev_prefix[c] * 256 + self.rev_symbol[c]] == c
            } by {
                if c != code {
                    assert(before.rev_prefix[c] < 4096);
                    let held = (before.rev_prefix[c] as int, before.rev_symbol[c] as int);
                    assert(before.map@.contains_key(held));
                    assert(held != key);
                }
            }
            assert forall|k: (int, int)| #[trigger] self.map@.contains_key(k) implies {
                &&& self.first <= self.map@[k] < self.next
                &&& self.rev_prefix[self.map@[k]] == k.0
                &&& self.rev_symbol[self.map@[k]] == k.1
            } by {
                if k != key {
                    assert(before.map@.contains_key(k));
                }
            }
        }
    }
}

/// Two to the power `mcs`.
pub fn clear_code_of(mcs: u8) -> (c: u16)
    requires
        2 <= mcs <= 8,
    ensures
        c == clear_code(mcs as int),
        4 <= c <= 256,
{
    let mut c: u16 = 1;
    let mut j: u8 = 0;
    proof {
        lemma2_to64();
    }
    while j < mcs
        invariant
            j <= mcs <= 8,
            c == pow2(j as nat),
            c <= 256,
        decreases mcs - j,
    {
        proof {
            lemma_pow2_unfold((j + 1) as nat);
            lemma_small_powers((j + 1) as nat);
            lemma2_to64();
        }
        c = c * 2;
        j = j + 1;
    }
    proof {
        lemma_start_ok(mcs as int);
    }
    c
}

/// Compresses one image.  `dict` is working space: what it held before does
/// not matter, and it can serve the next image again.
pub fn lzw_compress(input: &Vec<u8>, mcs: u8, dict: &mut LzwDict) -> (bytes: Vec<u8>)
    requires
        2 <= mcs <= 8,
        symbols_fit(mcs as int, input@),
        old(dict).wf(),
        old(dict).first_code() == first_free(mcs as int),
    ensures
        bytes@ == lzw_bytes(mcs as int, input@),
        final(dict).wf(),
        final(dict).first_code() == first_free(mcs as int),
{
    let clear = clear_code_of(mcs);
    let ghost m = mcs as int;
    proof {
        lemma_start_ok(m);
    }
    dict.reset();
    let mut writer = BitWriter::new();
    let mut width: u32 = mcs as u32 + 1;
    let mut limit: u32 = clear as u32 * 2;
    writer.write(clear, width, limit);
    let mut prefix: u16 = 0;
    let mut started = false;
    let mut i: usize = 0;
    while i < input.len()
        invariant
            2 <= mcs <= 8,
            m == mcs as int,
            clear == clear_code(m),
            symbols_fit(m, input@),
            0 <= i <= input.len(),
            dict.wf(),
            dict.first_code() == first_free(m),
            writer.wf(),
            state_ok(m, lzw_run(m, input@, i as int)),
            dict@ == lzw_run(m, input@, i as int).table,
            dict.next_code() == lzw_run(m, input@, i as int).next_code,
            width == lzw_run(m, input@, i as int).width,
            limit == pow2(width as nat),
            started ==> prefix == lzw_run(m, input@, i as int).prefix,
            !started ==> lzw_run(m, input@, i as int).prefix == -1,
            writer@ == lzw_run(m, input@, i as int).bits,
        decreases input.len() - i,
    {
        let k = input[i];
        let ghost s = lzw_run(m, input@, i as int);
        proof {
            lemma_start_ok(m);
            lemma_step_ok(m, s, k as int);
            lemma_small_powers(width as nat);
            assert(lzw_run(m, input@, i + 1) == lzw_step(m, s, input@[i as int] as int));
        }
        if !started {
            prefix = k as u16;
            started = true;
        } else {
            match dict.lookup(prefix, k) {
                Some(code) => {
                    prefix = code;
                },
                None => {
                    writer.write(prefix, width, limit);
                    let next = dict.next();
                    if next < MAX_CODES {
                        dict.insert(prefix, k);
                        if next as u32 == limit && width < MAX_WIDTH {
                            proof {
                                lemma_pow2_unfold((width + 1) as nat);
                            }
                            width = width + 1;
                            limit = limit * 2;
                        }
                    } else {
                        writer.write(clear, width, limit);
                        dict.reset();
                        width = mcs as u32 + 1;
                        limit = clear as u32 * 2;
                    }
                    prefix = k as u16;
                },
            }
        }
        i = i + 1;
    }
    let ghost s = lzw_run(m, input@, input.len() as int);
    proof {
        lemma_small_powers(width as nat);
    }
    if started {
        writer.write(prefix, width, limit);
        if dict.next() as u32 == limit && width < MAX_WIDTH {
            proof {
                lemma_pow2_unfold((width + 1) as nat);
            }
            width = width + 1;
            limit = limit * 2;
        }
    }
    proof {
        lemma_small_powers(width as nat);
        lemma_pow2_pos(width as nat);
    }
    writer.write(clear + 1, width, limit);
    writer.finish()
}

} // verus!

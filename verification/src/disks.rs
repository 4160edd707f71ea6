//! Block devices reported by `lsblk`, and the disks offered as install targets.

use vstd::prelude::*;

use crate::sorting::{
    in_stable_order, is_index_permutation, order_of, stable_sort, stably_sorted, StableKey,
};
use crate::text::{
    chars_lt, chars_start_with, lines, split_lines, starts_with, trim_str, lemma_seq_lt_asymmetric, lemma_seq_lt_total, lemma_seq_lt_transitive, seq_lt,
    decimal, digit_char, digit_to_char, push_decimal, string_of,
    all_ascii, ascii_upper, chars_eq, chars_eq_ignore_ascii_case, chars_of, eq_ignore_ascii_case,
    parse_u64, parse_unsigned, to_uppercase, trim, trim_chars, unicode_uppercase,
};

verus! {

/// A whole disk as the wizard shows it.
#[derive(Debug)]
pub struct Disk {
    /// Kernel name, such as `sda` or `nvme0n1`.
    pub name: String,
    /// Size as `human_size` renders it.
    pub size: String,
    /// Model string, trimmed; empty when unknown.
    pub model: String,
    /// Transport (`usb`, `sata`, `nvme`, ...); empty when unknown.
    pub tran: String,
    /// Whether the disk is rotational.
    pub rotational: bool,
    /// Whether the installer itself was booted from this disk.
    pub is_live: bool,
}

/// What kind of drive a disk is.
#[derive(Clone, Copy, Debug, PartialEq, Eq, Structural)]
pub enum DiskKind {
    Hdd,
    Ssd,
    Usb,
}

/// The transport name that marks a USB disk.
pub open spec fn usb_transport() -> Seq<char> {
    seq!['u', 's', 'b']
}

/// The kind of a disk with the given transport and rotational flag.
pub open spec fn kind_of(tran: Seq<char>, rotational: bool) -> DiskKind {
    if tran == usb_transport() {
        DiskKind::Usb
    } else if rotational {
        DiskKind::Hdd
    } else {
        DiskKind::Ssd
    }
}

/// The badge shown for a disk's transport: `DISK` when unknown, else the
/// transport in upper case.
pub open spec fn badge_of(tran: Seq<char>) -> Seq<char> {
    if tran.len() == 0 {
        seq!['D', 'I', 'S', 'K']
    } else {
        unicode_uppercase(tran)
    }
}

impl Clone for Disk {
    fn clone(&self) -> (r: Self)
        ensures
            r == *self,
    {
        Disk {
            name: self.name.clone(),
            size: self.size.clone(),
            model: self.model.clone(),
            tran: self.tran.clone(),
            rotational: self.rotational,
            is_live: self.is_live,
        }
    }
}

impl Disk {
    /// USB when the transport is `usb`, else HDD for a rotational disk and SSD
    /// for the rest.
    pub fn kind(&self) -> (k: DiskKind)
        ensures
            k == kind_of(self.tran@, self.rotational),
    {
        let t = chars_of(self.tran.as_str());
        if chars_eq(t.as_slice(), &['u', 's', 'b']) {
            DiskKind::Usb
        } else if self.rotational {
            DiskKind::Hdd
        } else {
            DiskKind::Ssd
        }
    }

    /// The transport badge: `DISK` when the transport is unknown, else the
    /// transport upper-cased.
    pub fn transport_badge(&self) -> (b: String)
        ensures
            b@ == badge_of(self.tran@),
            b@.len() > 0,
            all_ascii(self.tran@) && self.tran@.len() > 0 ==> b@ == self.tran@.map_values(
                |c: char| ascii_upper(c),
            ),
    {
        if self.tran.as_str().is_empty() {
            let b = String::from_str("DISK");
            proof {
                reveal_strlit("DISK");
            }
            b
        } else {
            to_uppercase(self.tran.as_str())
        }
    }
}


/// A size that `lsblk` may print as a number or as a string.
#[derive(Debug)]
pub enum NumOrStr {
    Num(u64),
    Str(String),
}

/// A flag that `lsblk` may print as a boolean, a string or a number.
#[derive(Debug)]
pub enum BoolIsh {
    Bool(bool),
    Str(String),
    Num(u8),
}

/// One entry of `lsblk -J -b -d -o NAME,SIZE,MODEL,TRAN,ROTA,TYPE`.
#[derive(Debug)]
pub struct LsblkDevice {
    pub name: String,
    pub size: Option<NumOrStr>,
    pub model: Option<String>,
    pub tran: Option<String>,
    pub rota: Option<BoolIsh>,
    /// The `type` column.
    pub dtype: Option<String>,
}

/// The byte count a size stands for: the number itself, or the trimmed string
/// read as a `u64`, or 0 where it does not read as one.
pub open spec fn size_value(n: NumOrStr) -> u64 {
    match n {
        NumOrStr::Num(v) => v,
        NumOrStr::Str(s) => match parse_unsigned(trim(s@), u64::MAX as int) {
            Some(v) => v as u64,
            None => 0,
        },
    }
}

/// The string that makes a flag true besides any casing of `true`.
pub open spec fn one_text() -> Seq<char> {
    seq!['1']
}

/// `true`, in lower case.
pub open spec fn true_text() -> Seq<char> {
    seq!['t', 'r', 'u', 'e']
}

/// Whether a flag is set: a true boolean, a non-zero number, or the string `1`
/// or `true` in any ASCII casing.
pub open spec fn flag_value(b: BoolIsh) -> bool {
    match b {
        BoolIsh::Bool(v) => v,
        BoolIsh::Num(n) => n != 0,
        BoolIsh::Str(s) => s@ == one_text() || eq_ignore_ascii_case(s@, true_text()),
    }
}

impl NumOrStr {
    /// The byte count this size stands for.
    pub fn as_u64(&self) -> (r: u64)
        ensures
            r == size_value(*self),
    {
        match self {
            NumOrStr::Num(n) => *n,
            NumOrStr::Str(s) => {
                let v = chars_of(s.as_str());
                let t = trim_chars(v.as_slice());
                match parse_u64(t.as_slice()) {
                    Some(n) => n,
                    None => 0,
                }
            },
        }
    }
}

impl BoolIsh {
    /// Whether this flag is set.
    pub fn truthy(&self) -> (r: bool)
        ensures
            r == flag_value(*self),
    {
        match self {
            BoolIsh::Bool(b) => *b,
            BoolIsh::Num(n) => *n != 0,
            BoolIsh::Str(s) => {
                let v = chars_of(s.as_str());
                let one_lit = ['1'];
                assert(one_lit@ == one_text());
                let one = chars_eq(v.as_slice(), &one_lit);
                let true_lit = ['t', 'r', 'u', 'e'];
                assert(true_lit@ == true_text());
                let t = chars_eq_ignore_ascii_case(v.as_slice(), &true_lit);
                one || t
            },
        }
    }
}

} // verus!

verus! {

/// `2^k`.
pub open spec fn pow2(k: nat) -> nat
    decreases k,
{
    if k == 0 {
        1
    } else {
        2 * pow2((k - 1) as nat)
    }
}

/// The number of binary digits of `n` (0 for 0).
pub open spec fn bit_length(n: nat) -> nat
    decreases n,
{
    if n == 0 {
        0
    } else {
        1 + bit_length(n / 2)
    }
}

/// The integer nearest to `num / den`, ties going to the even one.
pub open spec fn round_half_even(num: nat, den: nat) -> nat
    recommends
        den > 0,
{
    let q = num / den;
    let r = num % den;
    if 2 * r > den || (2 * r == den && q % 2 == 1) {
        q + 1
    } else {
        q
    }
}

/// The value that `n as f64` holds: `n` itself when it fits in the 53-bit
/// significand, else `n` rounded to the nearest multiple of the unit in the
/// last place, ties to an even significand.
pub open spec fn nearest_f64(n: nat) -> nat {
    if bit_length(n) <= 53 {
        n
    } else {
        let ulp = pow2((bit_length(n) - 53) as nat);
        round_half_even(n, ulp) * ulp
    }
}

/// The unit `human_size` picks for the value `f`: the largest power of 1024
/// (at most the fifth) that `f` reaches.
pub open spec fn size_unit(f: nat) -> nat {
    if f >= 1125899906842624 {
        5
    } else if f >= 1099511627776 {
        4
    } else if f >= 1073741824 {
        3
    } else if f >= 1048576 {
        2
    } else if f >= 1024 {
        1
    } else {
        0
    }
}

/// `1024^u` for the units in use.
pub open spec fn unit_scale(u: nat) -> nat {
    if u == 0 {
        1
    } else if u == 1 {
        1024
    } else if u == 2 {
        1048576
    } else if u == 3 {
        1073741824
    } else if u == 4 {
        1099511627776
    } else {
        1125899906842624
    }
}

/// The letter of a unit: B, K, M, G, T, P.
pub open spec fn unit_letter(u: nat) -> char {
    if u == 0 {
        'B'
    } else if u == 1 {
        'K'
    } else if u == 2 {
        'M'
    } else if u == 3 {
        'G'
    } else if u == 4 {
        'T'
    } else {
        'P'
    }
}

/// A byte count for people: `-` for 0, the exact count with `B` below 1 KiB,
/// else the value in the largest unit up to PiB that it reaches, with one
/// decimal, rounded as `format!("{:.1}", bytes as f64 / 1024^u)` rounds.
pub open spec fn human_size_text(bytes: u64) -> Seq<char> {
    if bytes == 0 {
        seq!['-']
    } else {
        let f = nearest_f64(bytes as nat);
        let u = size_unit(f);
        if u == 0 {
            decimal(bytes as nat).push('B')
        } else {
            let t = round_half_even(10 * f, unit_scale(u));
            decimal(t / 10).push('.').push(digit_char(t % 10)).push(unit_letter(u))
        }
    }
}

/// `pow2` on consecutive exponents.
pub proof fn lemma_pow2_facts(k: nat)
    ensures
        pow2(k) >= 1,
        pow2(k) >= k + 1,
        pow2(k + 1) == 2 * pow2(k),
    decreases k,
{
    if k > 0 {
        lemma_pow2_facts((k - 1) as nat);
    }
}

/// `pow2` grows with its exponent.
pub proof fn lemma_pow2_monotone(a: nat, b: nat)
    requires
        a <= b,
    ensures
        pow2(a) <= pow2(b),
    decreases b - a,
{
    if a < b {
        lemma_pow2_monotone(a, (b - 1) as nat);
        lemma_pow2_facts((b - 1) as nat);
    }
}

/// A positive `n` lies between `2^(bit_length(n) - 1)` and `2^bit_length(n)`.
pub proof fn lemma_bit_length_bounds(n: nat)
    requires
        n > 0,
    ensures
        bit_length(n) >= 1,
        pow2((bit_length(n) - 1) as nat) <= n < pow2(bit_length(n)),
    decreases n,
{
    lemma_pow2_facts(0);
    if n >= 2 {
        lemma_bit_length_bounds(n / 2);
        assert(bit_length(n) == 1 + bit_length(n / 2));
        lemma_pow2_facts((bit_length(n / 2) - 1) as nat);
        lemma_pow2_facts(bit_length(n / 2));
    } else {
        assert(bit_length(n) == 1 + bit_length(0));
    }
}

/// The rounded quotient stays within one of the plain one.
pub proof fn lemma_round_half_even_bounds(num: nat, den: nat)
    requires
        den > 0,
    ensures
        num / den <= round_half_even(num, den) <= num / den + 1,
        (num / den) * den <= num,
{
    assert((num / den) * den + num % den == num) by (nonlinear_arith)
        requires
            den > 0,
    ;
}

/// The powers of two that bound the integer types in use.
pub proof fn lemma_pow2_values()
    ensures
        pow2(11) == 2048,
        pow2(64) == 0x1_0000_0000_0000_0000,
{
    reveal_with_fuel(pow2, 12);
    assert(pow2(8) == 256);
    lemma_pow2_step8(8);
    lemma_pow2_step8(16);
    lemma_pow2_step8(24);
    lemma_pow2_step8(32);
    lemma_pow2_step8(40);
    lemma_pow2_step8(48);
    lemma_pow2_step8(56);
}

/// Eight more doublings multiply by 256.
pub proof fn lemma_pow2_step8(k: nat)
    ensures
        pow2(k + 8) == 256 * pow2(k),
{
    lemma_pow2_facts(k);
    lemma_pow2_facts(k + 1);
    lemma_pow2_facts(k + 2);
    lemma_pow2_facts(k + 3);
    lemma_pow2_facts(k + 4);
    lemma_pow2_facts(k + 5);
    lemma_pow2_facts(k + 6);
    lemma_pow2_facts(k + 7);
}

fn round_half_even_exec(num: u128, den: u128) -> (r: u128)
    requires
        den > 0,
        num < 0x1_0000_0000_0000_0000_0000,
        den < 0x1_0000_0000_0000_0000_0000,
    ensures
        r == round_half_even(num as nat, den as nat),
{
    let q = num / den;
    let rem = num % den;
    if rem > den / 2 || (rem * 2 == den && q % 2 == 1) {
        proof {
            lemma_round_half_even_bounds(num as nat, den as nat);
        }
        q + 1
    } else {
        q
    }
}

/// `n as f64`, as an integer (see `nearest_f64`).
pub fn nearest_f64_value(n: u64) -> (r: u128)
    ensures
        r == nearest_f64(n as nat),
        r <= n as nat + pow2(11),
{
    let mut m: u64 = n;
    let mut len: u64 = 0;
    let mut p2: u128 = 1;
    while m > 0
        invariant
            bit_length(n as nat) == len + bit_length(m as nat),
            p2 == pow2(len as nat),
            m as nat * p2 <= n as nat,
            len <= 64,
        decreases m,
    {
        proof {
            lemma_pow2_facts(len as nat);
            lemma_pow2_values();
            if len >= 64 {
                lemma_pow2_monotone(64, len as nat);
            }
            assert(p2 <= n as nat) by (nonlinear_arith)
                requires
                    m as nat * p2 <= n as nat,
                    m > 0,
            ;
            assert((m / 2) as nat * (2 * p2) <= m as nat * p2) by (nonlinear_arith)
                requires
                    m >= 0,
                    p2 >= 0,
            ;
        }
        m = m / 2;
        len = len + 1;
        p2 = p2 * 2;
    }
    if len <= 53 {
        proof {
            lemma_pow2_values();
        }
        n as u128
    } else {
        proof {
            lemma_bit_length_bounds(n as nat);
            lemma_pow2_values();
            lemma_pow2_monotone((len - 53) as nat, 11);
            lemma_pow2_monotone((len - 53) as nat, (len - 1) as nat);
        }
        let s = len - 53;
        let mut ulp: u128 = 1;
        let mut k: u64 = 0;
        while k < s
            invariant
                k <= s,
                s == len - 53,
                ulp == pow2(k as nat),
                pow2(s as nat) <= n as nat,
            decreases s - k,
        {
            proof {
                lemma_pow2_facts(k as nat);
                lemma_pow2_monotone((k + 1) as nat, s as nat);
            }
            ulp = ulp * 2;
            k = k + 1;
        }
        proof {
            lemma_pow2_facts(s as nat);
        }
        let q = round_half_even_exec(n as u128, ulp);
        proof {
            lemma_round_half_even_bounds(n as nat, ulp as nat);
            assert(q * ulp <= n as nat + ulp) by (nonlinear_arith)
                requires
                    q <= (n as nat) / (ulp as nat) + 1,
                    ((n as nat) / (ulp as nat)) * ulp <= n as nat,
                    ulp > 0,
            ;
        }
        q * ulp
    }
}


fn unit_letter_char(u: u64) -> (c: char)
    ensures
        c == unit_letter(u as nat),
{
    if u == 0 {
        'B'
    } else if u == 1 {
        'K'
    } else if u == 2 {
        'M'
    } else if u == 3 {
        'G'
    } else if u == 4 {
        'T'
    } else {
        'P'
    }
}

/// Renders a byte count for people (see `human_size_text`).
pub fn human_size(bytes: u64) -> (r: String)
    ensures
        r@ == human_size_text(bytes),
{
    if bytes == 0 {
        return string_of(&['-']);
    }
    let f = nearest_f64_value(bytes);
    proof {
        lemma_pow2_values();
    }
    let (u, scale): (u64, u128) = if f >= 1125899906842624 {
        (5, 1125899906842624)
    } else if f >= 1099511627776 {
        (4, 1099511627776)
    } else if f >= 1073741824 {
        (3, 1073741824)
    } else if f >= 1048576 {
        (2, 1048576)
    } else if f >= 1024 {
        (1, 1024)
    } else {
        (0, 1)
    };
    let mut out: Vec<char> = Vec::new();
    if u == 0 {
        push_decimal(&mut out, bytes);
        out.push('B');
    } else {
        let t = round_half_even_exec(10 * f, scale);
        proof {
            lemma_round_half_even_bounds((10 * f) as nat, scale as nat);
            assert((10 * f) as nat / (scale as nat) <= (10 * f) as nat / 1024) by (nonlinear_arith)
                requires
                    scale >= 1024,
            ;
        }
        push_decimal(&mut out, (t / 10) as u64);
        out.push('.');
        out.push(digit_to_char((t % 10) as u64));
        out.push(unit_letter_char(u));
    }
    string_of(out.as_slice())
}


/// Disks that the booted-from disk does not hold come first; within each
/// group names go in `String` order.
pub open spec fn disk_before(a: Disk, b: Disk) -> bool {
    (!a.is_live && b.is_live) || (a.is_live == b.is_live && seq_lt(a.name@, b.name@))
}

/// `disk_before` as a function value.
pub open spec fn disk_order() -> spec_fn(Disk, Disk) -> bool {
    |a: Disk, b: Disk| disk_before(a, b)
}

impl StableKey for Disk {
    open spec fn goes_before(a: Disk, b: Disk) -> bool {
        disk_before(a, b)
    }

    proof fn lemma_strict_weak_order(x: Disk, a: Disk, b: Disk) {
        lemma_seq_lt_asymmetric(x.name@, a.name@);
        lemma_seq_lt_total(a.name@, b.name@);
        if disk_before(x, a) && disk_before(a, b) && x.is_live == a.is_live && a.is_live
            == b.is_live {
            lemma_seq_lt_transitive(x.name@, a.name@, b.name@);
        }
        if disk_before(x, a) && seq_lt(a.name@, b.name@) && x.is_live == a.is_live && a.is_live
            == b.is_live {
            lemma_seq_lt_transitive(x.name@, a.name@, b.name@);
        }
    }

    fn goes_before_exec(&self, other: &Disk) -> (r: bool) {
        if !self.is_live && other.is_live {
            true
        } else if self.is_live != other.is_live {
            false
        } else {
            let an = chars_of(self.name.as_str());
            let bn = chars_of(other.name.as_str());
            chars_lt(an.as_slice(), bn.as_slice())
        }
    }
}

/// Sorts disks stably by `disk_before`.
pub fn sort_disks(v: Vec<Disk>) -> (r: Vec<Disk>)
    ensures
        stably_sorted(disk_order(), v@, r@),
{
    let r = stable_sort(v);
    assert(order_of::<Disk>() == disk_order());
    r
}

/// The `type` that marks a whole disk.
pub open spec fn disk_type() -> Seq<char> {
    seq!['d', 'i', 's', 'k']
}

/// The name prefix of compressed RAM disks.
pub open spec fn zram_prefix() -> Seq<char> {
    seq!['z', 'r', 'a', 'm']
}

/// The characters of an optional string.
pub open spec fn opt_chars(o: Option<String>) -> Option<Seq<char>> {
    match o {
        Some(s) => Some(s@),
        None => None,
    }
}

/// A device is offered when it is a whole disk and not a compressed RAM disk.
pub open spec fn is_candidate(d: LsblkDevice) -> bool {
    &&& d.dtype is Some
    &&& d.dtype->0@ == disk_type()
    &&& !starts_with(d.name@, zram_prefix())
}

/// The devices that are offered, in their order.
pub open spec fn candidates(devs: Seq<LsblkDevice>) -> Seq<LsblkDevice>
    decreases devs.len(),
{
    if devs.len() == 0 {
        seq![]
    } else {
        let rest = candidates(devs.drop_last());
        if is_candidate(devs.last()) {
            rest.push(devs.last())
        } else {
            rest
        }
    }
}

/// `disk` is what the wizard shows for the device `d`, given the name of the
/// disk the system was booted from: size rendered by `human_size`, model
/// trimmed, unknown transport empty, unknown rotation taken as rotational.
pub open spec fn describes(disk: Disk, d: LsblkDevice, live: Option<Seq<char>>) -> bool {
    &&& disk.name@ == d.name@
    &&& disk.size@ == human_size_text(
        match d.size {
            Some(n) => size_value(n),
            None => 0,
        },
    )
    &&& disk.model@ == trim(
        match d.model {
            Some(m) => m@,
            None => Seq::<char>::empty(),
        },
    )
    &&& disk.tran@ == match d.tran {
        Some(t) => t@,
        None => Seq::<char>::empty(),
    }
    &&& disk.rotational == match d.rota {
        Some(b) => flag_value(b),
        None => true,
    }
    &&& disk.is_live == (live == Some(d.name@))
}

/// `out` shows the devices `cands`, each once, ordered by `disk_before`
/// with ties in device order.
pub open spec fn lists_disks(cands: Seq<LsblkDevice>, live: Option<Seq<char>>, out: Seq<Disk>) -> bool {
    exists|p: Seq<int>|
        {
            &&& is_index_permutation(p, cands.len() as int)
            &&& out.len() == cands.len()
            &&& forall|k: int| 0 <= k < out.len() ==> describes(#[trigger] out[k], cands[p[k]], live)
            &&& in_stable_order(disk_order(), out, p)
        }
}

/// Whether the device is offered as an install target.
pub fn is_candidate_device(d: &LsblkDevice) -> (r: bool)
    ensures
        r == is_candidate(*d),
{
    let whole = match &d.dtype {
        Some(t) => {
            let tv = chars_of(t.as_str());
            let disk_lit = ['d', 'i', 's', 'k'];
            assert(disk_lit@ == disk_type());
            chars_eq(tv.as_slice(), &disk_lit)
        },
        None => false,
    };
    if !whole {
        return false;
    }
    let nv = chars_of(d.name.as_str());
    let zram_lit = ['z', 'r', 'a', 'm'];
    assert(zram_lit@ == zram_prefix());
    !chars_start_with(nv.as_slice(), &zram_lit)
}

/// The disk the wizard shows for one device.
pub fn disk_from_device(d: LsblkDevice, live: &Option<String>) -> (disk: Disk)
    ensures
        describes(disk, d, opt_chars(*live)),
{
    let is_live = match live {
        Some(l) => {
            let lv = chars_of(l.as_str());
            let nv = chars_of(d.name.as_str());
            chars_eq(lv.as_slice(), nv.as_slice())
        },
        None => false,
    };
    let bytes = match &d.size {
        Some(n) => n.as_u64(),
        None => 0,
    };
    let model = match &d.model {
        Some(m) => trim_str(m.as_str()),
        None => {
            assert(trim(Seq::<char>::empty()) == Seq::<char>::empty());
            String::new()
        },
    };
    let rotational = match &d.rota {
        Some(b) => b.truthy(),
        None => true,
    };
    let LsblkDevice { name, size: _, model: _, tran, rota: _, dtype: _ } = d;
    let tran = match tran {
        Some(t) => t,
        None => String::new(),
    };
    Disk { name, size: human_size(bytes), model, tran, rotational, is_live }
}

/// The install targets among the devices `lsblk` reported, given the name of
/// the disk the system was booted from: whole disks other than compressed RAM
/// disks, the booted-from disk last, each group by name.
pub fn disks_from_devices(devices: Vec<LsblkDevice>, live: Option<String>) -> (r: Vec<Disk>)
    ensures
        lists_disks(candidates(devices@), opt_chars(live), r@),
{
    let ghost orig = devices@;
    let ghost lv = opt_chars(live);
    assert(orig.len() == devices.len());
    let mut input = devices;
    let mut mapped: Vec<Disk> = Vec::new();
    let mut i: usize = 0;
    assert(orig.skip(0) == orig);
    assert(orig.take(0) == Seq::<LsblkDevice>::empty());
    while input.len() > 0
        invariant
            i + input@.len() == orig.len(),
            orig.len() <= usize::MAX,
            input@ == orig.skip(i as int),
            lv == opt_chars(live),
            mapped@.len() == candidates(orig.take(i as int)).len(),
            forall|k: int| 0 <= k < mapped@.len() ==> describes(#[trigger] mapped@[k], candidates(orig.take(i as int))[k], lv),
        decreases input@.len(),
    {
        let d = input.remove(0);
        assert(d == orig[i as int]);
        assert(input@ == orig.skip(i + 1));
        assert(orig.take(i + 1).drop_last() == orig.take(i as int));
        assert(orig.take(i + 1).last() == d);
        if is_candidate_device(&d) {
            let disk = disk_from_device(d, &live);
            mapped.push(disk);
        }
        i = i + 1;
    }
    assert(orig.take(i as int) == orig);
    let ghost cands = candidates(orig);
    let sorted = sort_disks(mapped);
    proof {
        let p = choose|p: Seq<int>| {
            &&& is_index_permutation(p, mapped@.len() as int)
            &&& sorted@.len() == mapped@.len()
            &&& forall|k: int| 0 <= k < sorted@.len() ==> #[trigger] sorted@[k] == mapped@[p[k]]
            &&& in_stable_order(disk_order(), sorted@, p)
        };
        assert forall|k: int| 0 <= k < sorted@.len() implies describes(#[trigger] sorted@[k], cands[p[k]], lv) by {
            assert(sorted@[k] == mapped@[p[k]]);
        }
    }
    sorted
}


/// The first line of `ls` that is not blank, trimmed.
pub open spec fn first_nonblank(ls: Seq<Seq<char>>) -> Option<Seq<char>>
    decreases ls.len(),
{
    if ls.len() == 0 {
        None
    } else if trim(ls[0]).len() > 0 {
        Some(trim(ls[0]))
    } else {
        first_nonblank(ls.drop_first())
    }
}

/// The first non-blank line of a command's output, trimmed.
pub fn first_nonblank_line(text: &str) -> (r: Option<String>)
    ensures
        opt_chars(r) == first_nonblank(lines(text@)),
{
    let v = chars_of(text);
    let ls = split_lines(v.as_slice());
    let ghost all = lines(v@);
    let mut i: usize = 0;
    assert(all.skip(0) == all);
    while i < ls.len()
        invariant
            i <= ls@.len(),
            ls@.len() == all.len(),
            all == lines(text@),
            forall|k: int| 0 <= k < ls@.len() ==> #[trigger] ls@[k]@ == all[k],
            first_nonblank(all.skip(i as int)) == first_nonblank(all),
        decreases ls@.len() - i,
    {
        let t = trim_chars(ls[i].as_slice());
        assert(all.skip(i as int)[0] == all[i as int]);
        if t.len() > 0 {
            return Some(string_of(t.as_slice()));
        }
        assert(all.skip(i as int).drop_first() == all.skip(i + 1));
        i = i + 1;
    }
    None
}


/// Every device kept is a whole disk other than a compressed RAM disk, and
/// none is added.
pub proof fn lemma_candidates(devs: Seq<LsblkDevice>)
    ensures
        candidates(devs).len() <= devs.len(),
        forall|k: int| 0 <= k < candidates(devs).len() ==> is_candidate(#[trigger] candidates(devs)[k]),
        forall|k: int| 0 <= k < candidates(devs).len() ==> devs.contains(#[trigger] candidates(devs)[k]),
    decreases devs.len(),
{
    if devs.len() > 0 {
        lemma_candidates(devs.drop_last());
        let rest = candidates(devs.drop_last());
        assert forall|k: int| 0 <= k < candidates(devs).len() implies devs.contains(#[trigger] candidates(devs)[k]) by {
            if k < rest.len() {
                let j = choose|j: int| 0 <= j < devs.drop_last().len() && devs.drop_last()[j] == rest[k];
                assert(devs[j] == rest[k]);
            } else {
                assert(devs[devs.len() - 1] == devs.last());
            }
        }
    }
}

/// Which devices are offered, stated from the devices' fields alone: a
/// device whose type is exactly `disk` and whose name does not begin with
/// `zram` is among the candidates, and every candidate is such a device.
pub proof fn lemma_candidate_devices(devs: Seq<LsblkDevice>, k: int)
    requires
        0 <= k < devs.len(),
    ensures
        ({
            let d = devs[k];
            (d.dtype matches Some(t) && t@ == "disk"@) && !(d.name@.len() >= 4 && d.name@.take(4)
                == "zram"@)
        }) ==> candidates(devs).contains(devs[k]),
        forall|j: int|
            0 <= j < candidates(devs).len() ==> ({
                let c = #[trigger] candidates(devs)[j];
                (c.dtype matches Some(t) && t@ == "disk"@) && !(c.name@.len() >= 4 && c.name@.take(
                    4,
                ) == "zram"@)
            }),
    decreases devs.len(),
{
    reveal_strlit("disk");
    reveal_strlit("zram");
    assert("disk"@ =~= disk_type());
    assert("zram"@ =~= zram_prefix());
    lemma_candidates(devs);
    let rest = candidates(devs.drop_last());
    if k < devs.len() - 1 {
        lemma_candidate_devices(devs.drop_last(), k);
        assert(devs.drop_last()[k] == devs[k]);
        if rest.contains(devs[k]) {
            let j = choose|j: int| 0 <= j < rest.len() && rest[j] == devs[k];
            assert(candidates(devs)[j] == devs[k]);
        }
    } else {
        if is_candidate(devs[k]) {
            assert(candidates(devs)[rest.len() as int] == devs[k]);
        }
    }
}

/// In a disk list, the disk the system was booted from never comes before
/// one it was not booted from, and disks of the same group go by name.
pub proof fn lemma_live_disk_last(cands: Seq<LsblkDevice>, live: Option<Seq<char>>, out: Seq<Disk>)
    requires
        lists_disks(cands, live, out),
    ensures
        forall|k: int, l: int| 0 <= k < l < out.len() ==> !((#[trigger] out[k]).is_live && !(#[trigger] out[l]).is_live),
        forall|k: int, l: int| 0 <= k < l < out.len() && (#[trigger] out[k]).is_live == (#[trigger] out[l]).is_live ==> !seq_lt(out[l].name@, out[k].name@),
{
    let p = choose|p: Seq<int>|
        {
            &&& is_index_permutation(p, cands.len() as int)
            &&& out.len() == cands.len()
            &&& forall|k: int| 0 <= k < out.len() ==> describes(#[trigger] out[k], cands[p[k]], live)
            &&& in_stable_order(disk_order(), out, p)
        };
    assert forall|k: int, l: int| 0 <= k < l < out.len() implies !disk_before(#[trigger] out[l], #[trigger] out[k]) by {
        assert(disk_order()(out[k], out[l]) || (!disk_order()(out[l], out[k]) && p[k] < p[l]));
        lemma_seq_lt_asymmetric(out[k].name@, out[l].name@);
    }
}

/// Below 1 KiB the size is the exact byte count with `B`.
pub proof fn lemma_human_size_bytes(bytes: u64)
    requires
        0 < bytes < 1024,
    ensures
        human_size_text(bytes) == decimal(bytes as nat).push('B'),
{
    lemma_bit_length_bounds(bytes as nat);
    lemma_pow2_values();
    if bit_length(bytes as nat) > 53 {
        lemma_pow2_monotone(53, (bit_length(bytes as nat) - 1) as nat);
        lemma_pow2_monotone(11, 53);
    }
}

/// A count below `2^53` converts to `f64` exactly.
pub proof fn lemma_nearest_f64_exact(n: nat)
    requires
        n < pow2(53),
    ensures
        nearest_f64(n) == n,
{
    if n > 0 && bit_length(n) > 53 {
        lemma_bit_length_bounds(n);
        lemma_pow2_monotone(53, (bit_length(n) - 1) as nat);
    }
}

} // verus!

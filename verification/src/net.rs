//! Wi-Fi networks as `nmcli` lists them.

use vstd::prelude::*;

use crate::disks::opt_chars;
use crate::sorting::{in_stable_order, is_index_permutation, order_of, stable_sort, StableKey};
use crate::text::{
    chars_eq, chars_of, lines, parse_u8, parse_unsigned, split_lines, string_of, trim, trim_chars,
};

verus! {

/// A Wi-Fi network the wizard offers.
#[derive(Debug)]
pub struct Network {
    pub ssid: String,
    /// Signal strength in percent.
    pub signal: u8,
    pub secured: bool,
    /// Whether the machine is connected to it now.
    pub active: bool,
}

/// A network as the contracts see it.
pub struct NetworkView {
    pub ssid: Seq<char>,
    pub signal: u8,
    pub secured: bool,
    pub active: bool,
}

impl View for Network {
    type V = NetworkView;

    open spec fn view(&self) -> NetworkView {
        NetworkView {
            ssid: self.ssid@,
            signal: self.signal,
            secured: self.secured,
            active: self.active,
        }
    }
}

impl Clone for Network {
    fn clone(&self) -> (r: Self)
        ensures
            r == *self,
    {
        Network {
            ssid: self.ssid.clone(),
            signal: self.signal,
            secured: self.secured,
            active: self.active,
        }
    }
}

/// The fields of a line of `nmcli -t` output, given what has been read so
/// far: `:` ends a field, and `\` makes the next character part of the field.
pub open spec fn terse_split(s: Seq<char>, done: Seq<Seq<char>>, cur: Seq<char>) -> Seq<Seq<char>>
    decreases s.len(),
{
    if s.len() == 0 {
        done.push(cur)
    } else if s[0] == '\\' {
        if s.len() >= 2 {
            terse_split(s.skip(2), done, cur.push(s[1]))
        } else {
            terse_split(s.skip(1), done, cur)
        }
    } else if s[0] == ':' {
        terse_split(s.drop_first(), done.push(cur), seq![])
    } else {
        terse_split(s.drop_first(), done, cur.push(s[0]))
    }
}

/// The fields of a line of `nmcli -t` output.
pub open spec fn terse_fields(s: Seq<char>) -> Seq<Seq<char>> {
    terse_split(s, seq![], seq![])
}

/// Splits a line of `nmcli -t` output, given as characters, into its fields.
pub fn split_terse_chars(line: &[char]) -> (r: Vec<Vec<char>>)
    ensures
        r@.len() == terse_fields(line@).len(),
        forall|k: int| 0 <= k < r@.len() ==> #[trigger] r@[k]@ == terse_fields(line@)[k],
{
    let mut out: Vec<Vec<char>> = Vec::new();
    let ghost mut done: Seq<Seq<char>> = seq![];
    let mut cur: Vec<char> = Vec::new();
    let mut i: usize = 0;
    assert(line@.skip(0) == line@);
    while i < line.len()
        invariant
            i <= line@.len(),
            out@.len() == done.len(),
            forall|k: int| 0 <= k < out@.len() ==> #[trigger] out@[k]@ == done[k],
            terse_fields(line@) == terse_split(line@.skip(i as int), done, cur@),
        decreases line@.len() - i,
    {
        let c = line[i];
        let ghost s = line@.skip(i as int);
        if c == '\\' {
            if i + 1 < line.len() {
                assert(s.skip(2) == line@.skip(i + 2));
                cur.push(line[i + 1]);
                i = i + 2;
            } else {
                assert(s.skip(1) == line@.skip(i + 1));
                i = i + 1;
            }
        } else if c == ':' {
            assert(s.drop_first() == line@.skip(i + 1));
            proof {
                done = done.push(cur@);
            }
            out.push(cur);
            cur = Vec::new();
            assert(cur@ == Seq::<char>::empty());
            i = i + 1;
        } else {
            assert(s.drop_first() == line@.skip(i + 1));
            cur.push(c);
            i = i + 1;
        }
    }
    assert(line@.skip(i as int) == Seq::<char>::empty());
    proof {
        done = done.push(cur@);
    }
    out.push(cur);
    out
}

/// Splits a line of `nmcli -t` output into its fields.
pub fn split_terse(line: &str) -> (r: Vec<String>)
    ensures
        r@.len() == terse_fields(line@).len(),
        forall|k: int| 0 <= k < r@.len() ==> #[trigger] r@[k]@ == terse_fields(line@)[k],
{
    let chars = chars_of(line);
    let fields = split_terse_chars(chars.as_slice());
    let mut r: Vec<String> = Vec::new();
    let mut i: usize = 0;
    while i < fields.len()
        invariant
            i <= fields@.len(),
            chars@ == line@,
            fields@.len() == terse_fields(line@).len(),
            forall|k: int| 0 <= k < fields@.len() ==> #[trigger] fields@[k]@ == terse_fields(line@)[k],
            r@.len() == i,
            forall|k: int| 0 <= k < i ==> #[trigger] r@[k]@ == terse_fields(line@)[k],
        decreases fields@.len() - i,
    {
        r.push(string_of(fields[i].as_slice()));
        i = i + 1;
    }
    r
}

/// The fields joined again with `:`.
pub open spec fn join_colon(f: Seq<Seq<char>>) -> Seq<char>
    decreases f.len(),
{
    if f.len() == 0 {
        seq![]
    } else if f.len() == 1 {
        f[0]
    } else {
        join_colon(f.drop_last()) + seq![':'] + f.last()
    }
}

/// `yes`, as `nmcli` marks the active network.
pub open spec fn yes_text() -> Seq<char> {
    seq!['y', 'e', 's']
}

/// `--`, as `nmcli` marks an open network.
pub open spec fn no_security_text() -> Seq<char> {
    seq!['-', '-']
}

/// The network a line of `nmcli -t -f ACTIVE,SIGNAL,SECURITY,SSID` describes:
/// none for fewer than four fields or an empty SSID. The SSID is the fourth
/// field and all after it, joined with `:`; the signal is the trimmed second
/// field read as a `u8`, else 0; the network is secured when the trimmed third
/// field is not empty and the field is not `--`.
pub open spec fn entry_of_fields(f: Seq<Seq<char>>) -> Option<NetworkView> {
    if f.len() < 4 {
        None
    } else {
        let ssid = join_colon(f.skip(3));
        if ssid.len() == 0 {
            None
        } else {
            Some(
                NetworkView {
                    ssid,
                    signal: match parse_unsigned(trim(f[1]), 255) {
                        Some(v) => v as u8,
                        None => 0,
                    },
                    secured: trim(f[2]).len() > 0 && f[2] != no_security_text(),
                    active: f[0] == yes_text(),
                },
            )
        }
    }
}

/// The network a line of `nmcli` output describes.
pub open spec fn entry_of_line(line: Seq<char>) -> Option<NetworkView> {
    entry_of_fields(terse_fields(line))
}

/// Index of the network named `ssid` in `acc`, or `acc.len()`.
pub open spec fn ssid_index(acc: Seq<NetworkView>, ssid: Seq<char>) -> int
    decreases acc.len(),
{
    if acc.len() == 0 {
        0
    } else if acc[0].ssid == ssid {
        0
    } else {
        1 + ssid_index(acc.drop_first(), ssid)
    }
}

/// An entry seen again: the stronger signal wins, with its security flag
/// (the earlier one on a tie), and the network is active if either says so.
pub open spec fn combine(e: NetworkView, n: NetworkView) -> NetworkView {
    NetworkView {
        ssid: e.ssid,
        signal: if n.signal > e.signal {
            n.signal
        } else {
            e.signal
        },
        secured: if n.signal > e.signal {
            n.secured
        } else {
            e.secured
        },
        active: e.active || n.active,
    }
}

/// `acc` with the entry `n` folded in: combined with the entry of the same
/// SSID, or appended.
pub open spec fn merge_entry(acc: Seq<NetworkView>, n: NetworkView) -> Seq<NetworkView> {
    let k = ssid_index(acc, n.ssid);
    if 0 <= k < acc.len() {
        acc.update(k, combine(acc[k], n))
    } else {
        acc.push(n)
    }
}

/// The networks of a listing, one per SSID, in order of first appearance.
pub open spec fn merged_listing(ls: Seq<Seq<char>>) -> Seq<NetworkView>
    decreases ls.len(),
{
    if ls.len() == 0 {
        seq![]
    } else {
        let acc = merged_listing(ls.drop_last());
        match entry_of_line(ls.last()) {
            Some(n) => merge_entry(acc, n),
            None => acc,
        }
    }
}

/// The active network first, then by falling signal strength.
pub open spec fn net_before(a: Network, b: Network) -> bool {
    (a.active && !b.active) || (a.active == b.active && a.signal > b.signal)
}

/// `net_before` as a function value.
pub open spec fn net_order() -> spec_fn(Network, Network) -> bool {
    |a: Network, b: Network| net_before(a, b)
}

impl StableKey for Network {
    open spec fn goes_before(a: Network, b: Network) -> bool {
        net_before(a, b)
    }

    proof fn lemma_strict_weak_order(x: Network, a: Network, b: Network) {
    }

    fn goes_before_exec(&self, other: &Network) -> (r: bool) {
        (self.active && !other.active) || (self.active == other.active && self.signal
            > other.signal)
    }
}

/// `out` lists the networks `entries`, each once, ordered by `net_before`
/// with ties in the order of `entries`.
pub open spec fn lists_networks(entries: Seq<NetworkView>, out: Seq<Network>) -> bool {
    exists|p: Seq<int>|
        {
            &&& is_index_permutation(p, entries.len() as int)
            &&& out.len() == entries.len()
            &&& forall|k: int| 0 <= k < out.len() ==> (#[trigger] out[k])@ == entries[p[k]]
            &&& in_stable_order(net_order(), out, p)
        }
}


/// The fields `f[from..]` joined with `:`.
fn join_fields_from(f: &Vec<Vec<char>>, from: usize, Ghost(fs): Ghost<Seq<Seq<char>>>) -> (r: Vec<char>)
    requires
        from < f@.len(),
        f@.len() == fs.len(),
        forall|k: int| 0 <= k < f@.len() ==> #[trigger] f@[k]@ == fs[k],
    ensures
        r@ == join_colon(fs.skip(from as int)),
{
    let mut r: Vec<char> = Vec::new();
    let mut i = from;
    assert(fs.subrange(from as int, from as int) == Seq::<Seq<char>>::empty());
    while i < f.len()
        invariant
            from <= i <= f@.len(),
            f@.len() == fs.len(),
            forall|k: int| 0 <= k < f@.len() ==> #[trigger] f@[k]@ == fs[k],
            r@ == join_colon(fs.subrange(from as int, i as int)),
        decreases f@.len() - i,
    {
        let ghost part = fs.subrange(from as int, i + 1);
        assert(part.drop_last() == fs.subrange(from as int, i as int));
        assert(part.last() == fs[i as int]);
        if i > from {
            r.push(':');
        } else {
            assert(part.len() == 1);
        }
        let field = &f[i];
        let mut j: usize = 0;
        let ghost base = r@;
        while j < field.len()
            invariant
                j <= field@.len(),
                r@ == base + field@.take(j as int),
            decreases field@.len() - j,
        {
            r.push(field[j]);
            j = j + 1;
            assert(r@ == base + field@.take(j as int));
        }
        assert(field@.take(field@.len() as int) == field@);
        assert(field@ == fs[i as int]);
        i = i + 1;
    }
    assert(fs.subrange(from as int, f@.len() as int) == fs.skip(from as int));
    r
}

/// The network that a split line describes (see `entry_of_fields`).
fn entry_from_fields(f: &Vec<Vec<char>>, Ghost(fs): Ghost<Seq<Seq<char>>>) -> (r: Option<Network>)
    requires
        f@.len() == fs.len(),
        forall|k: int| 0 <= k < f@.len() ==> #[trigger] f@[k]@ == fs[k],
    ensures
        r is Some <==> entry_of_fields(fs) is Some,
        r matches Some(n) ==> n@ == entry_of_fields(fs)->0,
{
    if f.len() < 4 {
        return None;
    }
    let ssid = join_fields_from(f, 3, Ghost(fs));
    if ssid.len() == 0 {
        return None;
    }
    let yes_lit = ['y', 'e', 's'];
    assert(yes_lit@ == yes_text());
    let active = chars_eq(f[0].as_slice(), &yes_lit);
    let level = trim_chars(f[1].as_slice());
    let signal: u8 = match parse_u8(level.as_slice()) {
        Some(v) => v,
        None => 0,
    };
    let sec = trim_chars(f[2].as_slice());
    let dash_lit = ['-', '-'];
    assert(dash_lit@ == no_security_text());
    let secured = sec.len() > 0 && !chars_eq(f[2].as_slice(), &dash_lit);
    assert(f@[0]@ == fs[0] && f@[1]@ == fs[1] && f@[2]@ == fs[2]);
    Some(Network { ssid: string_of(ssid.as_slice()), signal, secured, active })
}

/// The position of the network named like `ssid` in `acc`, if any.
fn find_ssid(acc: &Vec<Network>, ssid: &[char]) -> (r: usize)
    ensures
        r as int == ssid_index(acc@.map_values(|n: Network| n@), ssid@),
        r <= acc@.len(),
{
    let ghost av = acc@.map_values(|n: Network| n@);
    let mut j: usize = 0;
    assert(av.skip(0) == av);
    while j < acc.len()
        invariant
            j <= acc@.len(),
            av == acc@.map_values(|n: Network| n@),
            ssid_index(av, ssid@) == j + ssid_index(av.skip(j as int), ssid@),
        decreases acc@.len() - j,
    {
        let name = chars_of(acc[j].ssid.as_str());
        assert(av.skip(j as int)[0] == av[j as int]);
        if chars_eq(name.as_slice(), ssid) {
            return j;
        }
        assert(av.skip(j as int).drop_first() == av.skip(j + 1));
        j = j + 1;
    }
    j
}

/// Folds the network `n` into `acc` (see `merge_entry`).
fn merge_network(acc: &mut Vec<Network>, n: Network)
    ensures
        final(acc)@.map_values(|x: Network| x@) == merge_entry(
            old(acc)@.map_values(|x: Network| x@),
            n@,
        ),
{
    let ghost av = acc@.map_values(|x: Network| x@);
    let name = chars_of(n.ssid.as_str());
    let k = find_ssid(acc, name.as_slice());
    if k < acc.len() {
        let e = acc[k].clone();
        let stronger = n.signal > e.signal;
        let merged = Network {
            ssid: e.ssid,
            signal: if stronger {
                n.signal
            } else {
                e.signal
            },
            secured: if stronger {
                n.secured
            } else {
                e.secured
            },
            active: e.active || n.active,
        };
        acc.set(k, merged);
        assert(acc@.map_values(|x: Network| x@) =~= av.update(k as int, combine(av[k as int], n@)));
    } else {
        acc.push(n);
        assert(acc@.map_values(|x: Network| x@) =~= av.push(n@));
    }
}

/// The networks of an `nmcli -t -f ACTIVE,SIGNAL,SECURITY,SSID device wifi
/// list` listing: one per SSID, merged as `merged_listing` says, the active
/// one first and then by falling signal, ties in order of first appearance.
pub fn networks_from_listing(text: &str) -> (r: Vec<Network>)
    ensures
        lists_networks(merged_listing(lines(text@)), r@),
{
    let v = chars_of(text);
    let ls = split_lines(v.as_slice());
    let ghost all = lines(text@);
    let mut acc: Vec<Network> = Vec::new();
    let mut i: usize = 0;
    assert(all.take(0) == Seq::<Seq<char>>::empty());
    while i < ls.len()
        invariant
            i <= ls@.len(),
            ls@.len() == all.len(),
            all == lines(text@),
            forall|k: int| 0 <= k < ls@.len() ==> #[trigger] ls@[k]@ == all[k],
            acc@.map_values(|x: Network| x@) == merged_listing(all.take(i as int)),
        decreases ls@.len() - i,
    {
        let fields = split_terse_chars(ls[i].as_slice());
        let ghost fs = terse_fields(ls@[i as int]@);
        assert(all.take(i + 1).drop_last() == all.take(i as int));
        assert(all.take(i + 1).last() == all[i as int]);
        match entry_from_fields(&fields, Ghost(fs)) {
            Some(n) => merge_network(&mut acc, n),
            None => {},
        }
        i = i + 1;
    }
    assert(all.take(ls@.len() as int) == all);
    let ghost entries = acc@.map_values(|x: Network| x@);
    let sorted = stable_sort(acc);
    proof {
        let p = choose|p: Seq<int>|
            {
                &&& is_index_permutation(p, acc@.len() as int)
                &&& sorted@.len() == acc@.len()
                &&& forall|k: int| 0 <= k < sorted@.len() ==> #[trigger] sorted@[k] == acc@[p[k]]
                &&& in_stable_order(order_of::<Network>(), sorted@, p)
            };
        assert(order_of::<Network>() == net_order());
        assert forall|k: int| 0 <= k < sorted@.len() implies (#[trigger] sorted@[k])@ == entries[p[k]] by {
            assert(sorted@[k] == acc@[p[k]]);
        }
    }
    sorted
}


/// The `nmcli` arguments that connect to `ssid`, with the password when one
/// is given.
pub open spec fn connect_args_spec(ssid: Seq<char>, password: Option<Seq<char>>) -> Seq<Seq<char>> {
    let head = seq!["device"@, "wifi"@, "connect"@, ssid];
    match password {
        Some(pw) => head + seq!["password"@, pw],
        None => head,
    }
}

/// The `nmcli` arguments that connect to a network.
pub fn connect_args(ssid: &str, password: Option<String>) -> (r: Vec<String>)
    ensures
        r@.len() == connect_args_spec(
            ssid@,
            opt_chars(password),
        ).len(),
        forall|k: int|
            0 <= k < r@.len() ==> #[trigger] r@[k]@ == connect_args_spec(
                ssid@,
                opt_chars(password),
            )[k],
{
    let ghost pw = opt_chars(password);
    let mut r: Vec<String> = Vec::new();
    r.push(String::from_str("device"));
    r.push(String::from_str("wifi"));
    r.push(String::from_str("connect"));
    r.push(String::from_str(ssid));
    match password {
        Some(p) => {
            r.push(String::from_str("password"));
            r.push(p);
            assert(connect_args_spec(ssid@, pw) =~= seq![
                "device"@,
                "wifi"@,
                "connect"@,
                ssid@,
                "password"@,
                pw->0,
            ]);
        },
        None => {
            assert(connect_args_spec(ssid@, pw) =~= seq!["device"@, "wifi"@, "connect"@, ssid@]);
        },
    }
    r
}

#[verifier::external_type_specification]
#[verifier::external_body]
#[verifier::reject_recursive_types(T)]
pub struct ExReceiver<T>(std::sync::mpsc::Receiver<T>);

/// `Receiver::try_recv`, with its error (nothing has arrived yet, or the
/// sender is gone) turned into `None`. What it returns depends on the timing
/// of the thread that sends, so its contract states nothing of the result.
#[verifier::external_body]
fn try_receive<T>(rx: &std::sync::mpsc::Receiver<T>) -> Option<T> {
    rx.try_recv().ok()
}

/// A Wi-Fi scan running in the background.
pub struct ScanJob {
    rx: std::sync::mpsc::Receiver<Result<Vec<Network>, String>>,
}

impl ScanJob {
    /// The channel the result arrives on.
    pub closed spec fn receiver(self) -> std::sync::mpsc::Receiver<Result<Vec<Network>, String>> {
        self.rx
    }

    /// The job whose result arrives on `rx`.
    pub fn from_receiver(rx: std::sync::mpsc::Receiver<Result<Vec<Network>, String>>) -> (j: ScanJob)
        ensures
            j.receiver() == rx,
    {
        ScanJob { rx }
    }

    /// The scan's result, once it has arrived.
    pub fn poll(&self) -> Option<Result<Vec<Network>, String>> {
        try_receive(&self.rx)
    }
}

/// A connection attempt running in the background.
pub struct ConnectJob {
    rx: std::sync::mpsc::Receiver<Result<(), String>>,
}

impl ConnectJob {
    /// The channel the result arrives on.
    pub closed spec fn receiver(self) -> std::sync::mpsc::Receiver<Result<(), String>> {
        self.rx
    }

    /// The job whose result arrives on `rx`.
    pub fn from_receiver(rx: std::sync::mpsc::Receiver<Result<(), String>>) -> (j: ConnectJob)
        ensures
            j.receiver() == rx,
    {
        ConnectJob { rx }
    }

    /// The attempt's result, once it has arrived.
    pub fn poll(&self) -> Option<Result<(), String>> {
        try_receive(&self.rx)
    }
}


/// Joining fields with `:` after appending `t` to the last field.
proof fn lemma_join_extend_last(d: Seq<Seq<char>>, cur: Seq<char>, t: Seq<char>)
    ensures
        join_colon(d.push(cur + t)) == join_colon(d.push(cur)) + t,
{
    assert(d.push(cur + t).drop_last() == d);
    assert(d.push(cur).drop_last() == d);
    if d.len() > 0 {
        assert(join_colon(d.push(cur + t)) == join_colon(d) + seq![':'] + (cur + t));
        assert(join_colon(d.push(cur)) == join_colon(d) + seq![':'] + cur);
        assert(join_colon(d) + seq![':'] + (cur + t) =~= join_colon(d) + seq![':'] + cur + t);
    } else {
        assert(join_colon(d.push(cur + t)) == cur + t);
        assert(join_colon(d.push(cur)) == cur);
    }
}

/// Splitting a text without backslashes and joining the fields again gives
/// what had been read so far followed by the text.
proof fn lemma_split_join_acc(s: Seq<char>, d: Seq<Seq<char>>, cur: Seq<char>)
    requires
        forall|i: int| 0 <= i < s.len() ==> s[i] != '\\',
    ensures
        join_colon(terse_split(s, d, cur)) == join_colon(d.push(cur)) + s,
    decreases s.len(),
{
    if s.len() == 0 {
        assert(join_colon(d.push(cur)) + s == join_colon(d.push(cur)));
    } else if s[0] == ':' {
        lemma_split_join_acc(s.drop_first(), d.push(cur), seq![]);
        assert(d.push(cur).push(seq![]).drop_last() == d.push(cur));
        assert(join_colon(d.push(cur).push(seq![])) == join_colon(d.push(cur)) + seq![':'] + seq![]);
        assert(join_colon(d.push(cur)) + seq![':'] + seq![] + s.drop_first() =~= join_colon(d.push(cur)) + s);
    } else {
        lemma_split_join_acc(s.drop_first(), d, cur.push(s[0]));
        lemma_join_extend_last(d, cur, seq![s[0]]);
        assert(cur.push(s[0]) == cur + seq![s[0]]);
        assert(join_colon(d.push(cur)) + seq![s[0]] + s.drop_first() =~= join_colon(d.push(cur)) + s);
    }
}

/// A line without backslashes splits into fields that join back into it.
pub proof fn lemma_split_join(s: Seq<char>)
    requires
        forall|i: int| 0 <= i < s.len() ==> s[i] != '\\',
    ensures
        join_colon(terse_fields(s)) == s,
{
    lemma_split_join_acc(s, seq![], seq![]);
    assert(Seq::<Seq<char>>::empty().push(Seq::<char>::empty()).len() == 1);
    assert(join_colon(Seq::<Seq<char>>::empty().push(Seq::<char>::empty())) == Seq::<char>::empty());
    assert(Seq::<char>::empty() + s == s);
}

/// A field as `nmcli -t` prints it: `:` and `\` preceded by `\`.
pub open spec fn escape_field(x: Seq<char>) -> Seq<char>
    decreases x.len(),
{
    if x.len() == 0 {
        seq![]
    } else {
        (if x[0] == ':' || x[0] == '\\' {
            seq!['\\', x[0]]
        } else {
            seq![x[0]]
        }) + escape_field(x.drop_first())
    }
}

/// Reading an escaped field appends the field to the one being read.
proof fn lemma_read_escaped(x: Seq<char>, rest: Seq<char>, d: Seq<Seq<char>>, cur: Seq<char>)
    ensures
        terse_split(escape_field(x) + rest, d, cur) == terse_split(rest, d, cur + x),
    decreases x.len(),
{
    if x.len() == 0 {
        assert(escape_field(x) + rest == rest);
        assert(cur + x == cur);
    } else {
        let c = x[0];
        lemma_read_escaped(x.drop_first(), rest, d, cur.push(c));
        assert(cur.push(c) + x.drop_first() =~= cur + x);
        let s = escape_field(x) + rest;
        if c == ':' || c == '\\' {
            assert(s[0] == '\\' && s[1] == c);
            assert(s.skip(2) =~= escape_field(x.drop_first()) + rest);
        } else {
            assert(s[0] == c);
            assert(s.drop_first() =~= escape_field(x.drop_first()) + rest);
        }
    }
}

/// Joining fields from the front.
proof fn lemma_join_front(f: Seq<Seq<char>>)
    requires
        f.len() >= 2,
    ensures
        join_colon(f) == f[0] + seq![':'] + join_colon(f.drop_first()),
    decreases f.len(),
{
    if f.len() == 2 {
        assert(f.drop_last() == seq![f[0]]);
        assert(f.drop_first() == seq![f[1]]);
        assert(join_colon(f.drop_last()) == f[0]);
        assert(join_colon(f.drop_first()) == f[1]);
    } else {
        lemma_join_front(f.drop_last());
        assert(f.drop_last().drop_first() == f.drop_first().drop_last());
        assert(f.drop_first().last() == f.last());
        assert(join_colon(f.drop_first()) == join_colon(f.drop_first().drop_last()) + seq![':']
            + f.drop_first().last());
        assert(f.drop_last()[0] == f[0]);
        assert(join_colon(f) =~= f[0] + seq![':'] + join_colon(f.drop_first()));
    }
}

/// Reading the escaped, joined fields gives them back after those read so far.
proof fn lemma_read_joined(f: Seq<Seq<char>>, d: Seq<Seq<char>>)
    requires
        f.len() >= 1,
    ensures
        terse_split(join_colon(f.map_values(|x: Seq<char>| escape_field(x))), d, seq![]) == d + f,
    decreases f.len(),
{
    let e = f.map_values(|x: Seq<char>| escape_field(x));
    if f.len() == 1 {
        assert(join_colon(e) == e[0]);
        lemma_read_escaped(f[0], seq![], d, seq![]);
        assert(escape_field(f[0]) + Seq::<char>::empty() == escape_field(f[0]));
        assert(Seq::<char>::empty() + f[0] == f[0]);
        assert(d.push(f[0]) =~= d + f);
    } else {
        lemma_join_front(e);
        let rest = seq![':'] + join_colon(e.drop_first());
        assert(join_colon(e) =~= escape_field(f[0]) + rest);
        lemma_read_escaped(f[0], rest, d, seq![]);
        assert(Seq::<char>::empty() + f[0] == f[0]);
        assert(rest[0] == ':');
        assert(rest.drop_first() =~= join_colon(e.drop_first()));
        assert(e.drop_first() =~= f.drop_first().map_values(|x: Seq<char>| escape_field(x)));
        lemma_read_joined(f.drop_first(), d.push(f[0]));
        assert(d.push(f[0]) + f.drop_first() =~= d + f);
    }
}

/// Splitting undoes `nmcli -t`'s encoding: fields escaped and joined with
/// `:` split back into the same fields.
pub proof fn lemma_split_escaped_fields(f: Seq<Seq<char>>)
    requires
        f.len() >= 1,
    ensures
        terse_fields(join_colon(f.map_values(|x: Seq<char>| escape_field(x)))) == f,
{
    lemma_read_joined(f, seq![]);
    assert(Seq::<Seq<char>>::empty() + f == f);
}


/// `ssid_index` finds the first network of that name, or says there is none.
pub proof fn lemma_ssid_index(acc: Seq<NetworkView>, ssid: Seq<char>)
    ensures
        0 <= ssid_index(acc, ssid) <= acc.len(),
        ssid_index(acc, ssid) < acc.len() ==> acc[ssid_index(acc, ssid)].ssid == ssid,
        ssid_index(acc, ssid) == acc.len() ==> forall|i: int| 0 <= i < acc.len() ==> (#[trigger] acc[i]).ssid != ssid,
    decreases acc.len(),
{
    if acc.len() > 0 && acc[0].ssid != ssid {
        lemma_ssid_index(acc.drop_first(), ssid);
        assert forall|i: int| 0 <= i < acc.len() && ssid_index(acc, ssid) == acc.len() implies (#[trigger] acc[i]).ssid != ssid by {
            if i > 0 {
                assert(acc[i] == acc.drop_first()[i - 1]);
            }
        }
    }
}

/// No two networks share an SSID.
pub open spec fn distinct_ssids(acc: Seq<NetworkView>) -> bool {
    forall|i: int, j: int| 0 <= i < acc.len() && 0 <= j < acc.len() && i != j ==> (#[trigger] acc[i]).ssid != (#[trigger] acc[j]).ssid
}

/// `n` is accounted for in `acc`: its SSID is there, with at least its
/// signal, and active if it is.
pub open spec fn covers(acc: Seq<NetworkView>, n: NetworkView) -> bool {
    exists|k: int| 0 <= k < acc.len() && (#[trigger] acc[k]).ssid == n.ssid && acc[k].signal >= n.signal && (n.active ==> acc[k].active)
}

/// Folding in one entry keeps SSIDs distinct, accounts for the entry, and
/// keeps accounting for everything accounted for before.
proof fn lemma_merge_entry(acc: Seq<NetworkView>, n: NetworkView, m: NetworkView)
    requires
        distinct_ssids(acc),
    ensures
        distinct_ssids(merge_entry(acc, n)),
        covers(merge_entry(acc, n), n),
        covers(acc, m) ==> covers(merge_entry(acc, n), m),
        merge_entry(acc, n).len() >= acc.len(),
{
    lemma_ssid_index(acc, n.ssid);
    let k = ssid_index(acc, n.ssid);
    let r = merge_entry(acc, n);
    if k < acc.len() {
        assert(r[k].ssid == n.ssid);
        assert(distinct_ssids(r)) by {
            assert forall|i: int, j: int| 0 <= i < r.len() && 0 <= j < r.len() && i != j implies (#[trigger] r[i]).ssid != (#[trigger] r[j]).ssid by {
                assert(r[i].ssid == acc[i].ssid);
                assert(r[j].ssid == acc[j].ssid);
            }
        }
        if covers(acc, m) {
            let j = choose|j: int| 0 <= j < acc.len() && (#[trigger] acc[j]).ssid == m.ssid && acc[j].signal >= m.signal && (m.active ==> acc[j].active);
            assert(r[j].ssid == m.ssid);
        }
    } else {
        assert(r[acc.len() as int] == n);
        assert(distinct_ssids(r)) by {
            assert forall|i: int, j: int| 0 <= i < r.len() && 0 <= j < r.len() && i != j implies (#[trigger] r[i]).ssid != (#[trigger] r[j]).ssid by {
                if i < acc.len() && j < acc.len() {
                    assert(r[i] == acc[i] && r[j] == acc[j]);
                } else if i < acc.len() {
                    assert(acc[i].ssid != n.ssid);
                } else {
                    assert(acc[j].ssid != n.ssid);
                }
            }
        }
        if covers(acc, m) {
            let j = choose|j: int| 0 <= j < acc.len() && (#[trigger] acc[j]).ssid == m.ssid && acc[j].signal >= m.signal && (m.active ==> acc[j].active);
            assert(r[j] == acc[j]);
        }
    }
}

/// A listing yields each SSID once, and each network line of it is
/// accounted for: its SSID is listed with a signal at least as strong, and
/// as active if the line says so.
pub proof fn lemma_merged_listing(ls: Seq<Seq<char>>)
    ensures
        distinct_ssids(merged_listing(ls)),
        forall|j: int| 0 <= j < ls.len() && (#[trigger] entry_of_line(ls[j])) is Some ==> covers(merged_listing(ls), entry_of_line(ls[j])->0),
    decreases ls.len(),
{
    if ls.len() > 0 {
        let prev = ls.drop_last();
        lemma_merged_listing(prev);
        let acc = merged_listing(prev);
        assert forall|j: int| 0 <= j < ls.len() && (#[trigger] entry_of_line(ls[j])) is Some implies covers(merged_listing(ls), entry_of_line(ls[j])->0) by {
            let m = entry_of_line(ls[j])->0;
            match entry_of_line(ls.last()) {
                Some(n) => {
                    lemma_merge_entry(acc, n, m);
                    if j < prev.len() {
                        assert(prev[j] == ls[j]);
                    }
                },
                None => {
                    if j < prev.len() {
                        assert(prev[j] == ls[j]);
                    }
                },
            }
        }
        match entry_of_line(ls.last()) {
            Some(n) => {
                lemma_merge_entry(acc, n, n);
            },
            None => {},
        }
    }
}

} // verus!

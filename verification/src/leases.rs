//! The lease model: the option keywords, the `Lease` record and its
//! queries, and the option-list parser that fills a lease from tokens.
use vstd::prelude::*;

use crate::common::Date;
use crate::common::IPAddress;
use crate::common::MACAddress;
use crate::common::ParseError;
use crate::common::ParseErrorView;
use crate::common::spec_date_le;
use crate::lex::LexItem;
use crate::lex::Token;
use crate::lex::token_text;

verus! {

/// The closed set of option keywords recognised inside a `lease { ... }`
/// block.
#[derive(Debug, Clone, Copy, PartialEq, Eq, Structural)]
pub enum LeaseKeyword {
    Abandoned,
    ClientHostname,
    Ends,
    Hardware,
    Hostname,
    Starts,
    Uid,
}

/// The canonical text of each option keyword.
pub open spec fn lease_keyword_str(k: LeaseKeyword) -> Seq<char> {
    match k {
        LeaseKeyword::Abandoned => "abandoned"@,
        LeaseKeyword::ClientHostname => "client-hostname"@,
        LeaseKeyword::Ends => "ends"@,
        LeaseKeyword::Hardware => "hardware"@,
        LeaseKeyword::Hostname => "hostname"@,
        LeaseKeyword::Starts => "starts"@,
        LeaseKeyword::Uid => "uid"@,
    }
}

/// Which option keyword a word denotes, if any; the map is case-sensitive.
pub open spec fn lease_keyword_of(s: Seq<char>) -> Option<LeaseKeyword> {
    if s == "abandoned"@ {
        Some(LeaseKeyword::Abandoned)
    } else if s == "client-hostname"@ {
        Some(LeaseKeyword::ClientHostname)
    } else if s == "ends"@ {
        Some(LeaseKeyword::Ends)
    } else if s == "hardware"@ {
        Some(LeaseKeyword::Hardware)
    } else if s == "hostname"@ {
        Some(LeaseKeyword::Hostname)
    } else if s == "starts"@ {
        Some(LeaseKeyword::Starts)
    } else if s == "uid"@ {
        Some(LeaseKeyword::Uid)
    } else {
        None
    }
}

impl LeaseKeyword {
    /// The keyword's canonical text.
    pub fn to_string(&self) -> (r: String)
        ensures
            r@ == lease_keyword_str(*self),
    {
        match self {
            LeaseKeyword::Abandoned => String::from_str("abandoned"),
            LeaseKeyword::ClientHostname => String::from_str("client-hostname"),
            LeaseKeyword::Ends => String::from_str("ends"),
            LeaseKeyword::Hardware => String::from_str("hardware"),
            LeaseKeyword::Hostname => String::from_str("hostname"),
            LeaseKeyword::Starts => String::from_str("starts"),
            LeaseKeyword::Uid => String::from_str("uid"),
        }
    }

    /// Recognises an option keyword; any other word is reported as
    /// unrecognised, with the word as the payload.
    pub fn from(s: &str) -> (r: Result<LeaseKeyword, ParseError>)
        ensures
            match lease_keyword_of(s@) {
                Some(k) => r matches Ok(got) && got == k,
                None => r matches Err(e) && e@ == ParseErrorView::UnrecognizedKeyword(s@),
            },
    {
        if crate::common::str_eq(s, "abandoned") {
            Ok(LeaseKeyword::Abandoned)
        } else if crate::common::str_eq(s, "client-hostname") {
            Ok(LeaseKeyword::ClientHostname)
        } else if crate::common::str_eq(s, "ends") {
            Ok(LeaseKeyword::Ends)
        } else if crate::common::str_eq(s, "hardware") {
            Ok(LeaseKeyword::Hardware)
        } else if crate::common::str_eq(s, "hostname") {
            Ok(LeaseKeyword::Hostname)
        } else if crate::common::str_eq(s, "starts") {
            Ok(LeaseKeyword::Starts)
        } else if crate::common::str_eq(s, "uid") {
            Ok(LeaseKeyword::Uid)
        } else {
            Err(ParseError::UnrecognizedKeyword(s.to_owned()))
        }
    }
}

/// Turning any option keyword into text and back yields the keyword again:
/// the mapping between keywords and their texts is bidirectional.
pub proof fn lemma_lease_keyword_roundtrip(k: LeaseKeyword)
    ensures
        lease_keyword_of(lease_keyword_str(k)) == Some(k),
{
    reveal_strlit("abandoned");
    reveal_strlit("client-hostname");
    reveal_strlit("ends");
    reveal_strlit("hardware");
    reveal_strlit("hostname");
    reveal_strlit("starts");
    reveal_strlit("uid");
    match k {
        LeaseKeyword::Abandoned => {
        },
        LeaseKeyword::ClientHostname => {
            assert("client-hostname"@.len() == 15 && "abandoned"@.len() == 9);
        },
        LeaseKeyword::Ends => {
            assert("ends"@.len() == 4 && "abandoned"@.len() == 9 && "client-hostname"@.len()
                == 15);
        },
        LeaseKeyword::Hardware => {
            assert("hardware"@.len() == 8 && "abandoned"@.len() == 9 && "client-hostname"@.len()
                == 15 && "ends"@.len() == 4);
        },
        LeaseKeyword::Hostname => {
            assert("hostname"@.len() == 8 && "abandoned"@.len() == 9 && "client-hostname"@.len()
                == 15 && "ends"@.len() == 4);
            assert("hostname"@[1] == 'o' && "hardware"@[1] == 'a');
        },
        LeaseKeyword::Starts => {
            assert("starts"@.len() == 6 && "abandoned"@.len() == 9 && "client-hostname"@.len()
                == 15 && "ends"@.len() == 4 && "hardware"@.len() == 8 && "hostname"@.len() == 8);
        },
        LeaseKeyword::Uid => {
            assert("uid"@.len() == 3 && "abandoned"@.len() == 9 && "client-hostname"@.len() == 15
                && "ends"@.len() == 4 && "hardware"@.len() == 8 && "hostname"@.len() == 8
                && "starts"@.len() == 6);
        },
    }
}

/// The validity window of a lease; a missing side leaves the lease
/// unbounded there.
#[derive(Debug, Clone, Copy)]
pub struct LeaseDates {
    pub starts: Option<Date>,
    pub ends: Option<Date>,
}

/// Spec-level mirror of [`Hardware`].
#[verifier::ext_equal]
pub struct HardwareView {
    pub h_type: Seq<char>,
    pub mac: Seq<char>,
}

/// The hardware statement's two tokens; both are kept verbatim, without
/// syntax checking.
#[derive(Debug)]
pub struct Hardware {
    pub h_type: String,
    pub mac: MACAddress,
}

impl View for Hardware {
    type V = HardwareView;

    open spec fn view(&self) -> HardwareView {
        HardwareView { h_type: self.h_type@, mac: self.mac@ }
    }
}

impl Clone for Hardware {
    fn clone(&self) -> (r: Self)
        ensures
            r == *self,
    {
        Hardware { h_type: self.h_type.clone(), mac: self.mac.clone() }
    }
}

/// Spec-level mirror of [`Lease`], with strings as `Seq<char>`.
#[verifier::ext_equal]
pub struct LeaseView {
    pub ip: Seq<char>,
    pub dates: LeaseDates,
    pub hardware: Option<HardwareView>,
    pub uid: Option<Seq<char>>,
    pub client_hostname: Option<Seq<char>>,
    pub hostname: Option<Seq<char>>,
    pub abandoned: bool,
}

/// One `lease { ... }` declaration: the leased IP, the validity window,
/// and the optional hardware, identifier and hostname statements.
#[derive(Debug)]
pub struct Lease {
    pub ip: IPAddress,
    pub dates: LeaseDates,
    pub hardware: Option<Hardware>,
    pub uid: Option<String>,
    pub client_hostname: Option<String>,
    pub hostname: Option<String>,
    pub abandoned: bool,
}

impl View for Lease {
    type V = LeaseView;

    open spec fn view(&self) -> LeaseView {
        LeaseView {
            ip: self.ip@,
            dates: self.dates,
            hardware: match self.hardware {
                Some(h) => Some(h@),
                None => None,
            },
            uid: match self.uid {
                Some(u) => Some(u@),
                None => None,
            },
            client_hostname: match self.client_hostname {
                Some(c) => Some(c@),
                None => None,
            },
            hostname: match self.hostname {
                Some(h) => Some(h@),
                None => None,
            },
            abandoned: self.abandoned,
        }
    }
}

impl Clone for Lease {
    fn clone(&self) -> (r: Self)
        ensures
            r == *self,
    {
        Lease {
            ip: self.ip.clone(),
            dates: self.dates,
            hardware: match &self.hardware {
                Some(h) => Some(h.clone()),
                None => None,
            },
            uid: match &self.uid {
                Some(u) => Some(u.clone()),
                None => None,
            },
            client_hostname: match &self.client_hostname {
                Some(c) => Some(c.clone()),
                None => None,
            },
            hostname: match &self.hostname {
                Some(h) => Some(h.clone()),
                None => None,
            },
            abandoned: self.abandoned,
        }
    }
}

/// A lease before any option statement has been read: everything absent,
/// not abandoned, only the IP set.
pub open spec fn spec_lease_init(ip: Seq<char>) -> LeaseView {
    LeaseView {
        ip,
        dates: LeaseDates { starts: None, ends: None },
        hardware: None,
        uid: None,
        client_hostname: None,
        hostname: None,
        abandoned: false,
    }
}

/// A lease is active at `when` iff its start (if any) is at or before
/// `when` and its end (if any) is at or after `when`.
pub open spec fn spec_is_active_at(l: LeaseView, when: Date) -> bool {
    &&& (l.dates.starts matches Some(s) ==> spec_date_le(s, when))
    &&& (l.dates.ends matches Some(e) ==> spec_date_le(when, e))
}

impl Lease {
    /// A fresh lease with the placeholder IP `localhost` and every option
    /// absent.
    pub fn new() -> (r: Lease)
        ensures
            r@ == spec_lease_init("localhost"@),
    {
        let r = Lease {
            ip: String::from_str("localhost"),
            dates: LeaseDates { starts: None, ends: None },
            hardware: None,
            uid: None,
            client_hostname: None,
            hostname: None,
            abandoned: false,
        };
        proof {
            assert(r@ =~= spec_lease_init("localhost"@));
        }
        r
    }

    /// Decides [`spec_is_active_at`]: both comparisons use the six-field
    /// date ordering, ignoring the weekday.
    pub fn is_active_at(&self, when: Date) -> (r: bool)
        ensures
            r == spec_is_active_at(self@, when),
    {
        if let Some(s) = self.dates.starts {
            if !s.le(&when) {
                return false;
            }
        }
        if let Some(e) = self.dates.ends {
            if !when.le(&e) {
                return false;
            }
        }
        true
    }
}

/// Whether the lease's hardware statement carries exactly this MAC; a
/// lease without a hardware statement never matches.
pub open spec fn mac_matches(l: Lease, mac: Seq<char>) -> bool {
    match l.hardware {
        Some(h) => h.mac@ == mac,
        None => false,
    }
}

/// The last lease of `s` leased to `ip`, if any: later declarations win.
pub open spec fn find_last_by_ip(s: Seq<Lease>, ip: Seq<char>) -> Option<Lease>
    decreases s.len(),
{
    if s.len() == 0 {
        None
    } else if s.last().ip@ == ip {
        Some(s.last())
    } else {
        find_last_by_ip(s.drop_last(), ip)
    }
}

/// Every lease of `s` leased to `ip`, in file order.
pub open spec fn all_by_ip(s: Seq<Lease>, ip: Seq<char>) -> Seq<Lease>
    decreases s.len(),
{
    if s.len() == 0 {
        Seq::empty()
    } else if s.last().ip@ == ip {
        all_by_ip(s.drop_last(), ip).push(s.last())
    } else {
        all_by_ip(s.drop_last(), ip)
    }
}

/// The last lease of `s` whose hardware statement carries `mac`, if any.
pub open spec fn find_last_by_mac(s: Seq<Lease>, mac: Seq<char>) -> Option<Lease>
    decreases s.len(),
{
    if s.len() == 0 {
        None
    } else if mac_matches(s.last(), mac) {
        Some(s.last())
    } else {
        find_last_by_mac(s.drop_last(), mac)
    }
}

/// Every lease of `s` whose hardware statement carries `mac`, in file
/// order.
pub open spec fn all_by_mac(s: Seq<Lease>, mac: Seq<char>) -> Seq<Lease>
    decreases s.len(),
{
    if s.len() == 0 {
        Seq::empty()
    } else if mac_matches(s.last(), mac) {
        all_by_mac(s.drop_last(), mac).push(s.last())
    } else {
        all_by_mac(s.drop_last(), mac)
    }
}

pub open spec fn hostname_of(l: Lease) -> Option<Seq<char>> {
    match l.hostname {
        Some(h) => Some(h@),
        None => None,
    }
}

pub open spec fn client_hostname_of(l: Lease) -> Option<Seq<char>> {
    match l.client_hostname {
        Some(c) => Some(c@),
        None => None,
    }
}

/// The value [`distinct_values`] gathers from one lease: the hostname
/// when `use_hostname` holds, else the client hostname.
pub open spec fn selected_value(l: Lease, use_hostname: bool) -> Option<Seq<char>> {
    if use_hostname {
        hostname_of(l)
    } else {
        client_hostname_of(l)
    }
}

/// The distinct non-empty hostname (or client-hostname) values of `s`, in
/// order of first occurrence; leases without the field contribute nothing.
pub open spec fn distinct_values(s: Seq<Lease>, use_hostname: bool) -> Seq<Seq<char>>
    decreases s.len(),
{
    if s.len() == 0 {
        Seq::empty()
    } else {
        let pre = distinct_values(s.drop_last(), use_hostname);
        match selected_value(s.last(), use_hostname) {
            Some(h) => if h.len() > 0 && !pre.contains(h) {
                pre.push(h)
            } else {
                pre
            },
            None => pre,
        }
    }
}

/// The ordered lease collection: file order, every declaration kept,
/// duplicates by IP never merged.
#[derive(Debug)]
pub struct Leases(Vec<Lease>);

impl View for Leases {
    type V = Seq<Lease>;

    closed spec fn view(&self) -> Seq<Lease> {
        self.0@
    }
}

impl Leases {
    /// How many leases the collection holds.
    pub fn len(&self) -> (n: usize)
        ensures
            n == self@.len(),
    {
        self.0.len()
    }

    /// The lease at position `i` in file order.
    pub fn get(&self, i: usize) -> (r: &Lease)
        requires
            i < self@.len(),
        ensures
            *r == self@[i as int],
    {
        &self.0[i]
    }
}

/// The query surface of [`Leases`].
pub trait LeasesMethods {
    spec fn leases_seq(&self) -> Seq<Lease>;

    /// The most recent declaration for `ip`, scanning file order from the
    /// end.
    fn by_leased(&self, ip: IPAddress) -> (r: Option<Lease>)
        ensures
            r == find_last_by_ip(self.leases_seq(), ip@),
    ;

    /// Every declaration for `ip`, in file order.
    fn by_leased_all(&self, ip: IPAddress) -> (r: Vec<Lease>)
        ensures
            r@ == all_by_ip(self.leases_seq(), ip@),
    ;

    /// The most recent declaration whose hardware statement carries `mac`.
    fn by_mac(&self, mac: MACAddress) -> (r: Option<Lease>)
        ensures
            r == find_last_by_mac(self.leases_seq(), mac@),
    ;

    /// Every declaration whose hardware statement carries `mac`, in file
    /// order.
    fn by_mac_all(&self, mac: MACAddress) -> (r: Vec<Lease>)
        ensures
            r@ == all_by_mac(self.leases_seq(), mac@),
    ;

    /// The distinct non-empty `hostname` values, in order of first
    /// occurrence.
    fn hostnames(&self) -> (r: Vec<String>)
        ensures
            r.deep_view() == distinct_values(self.leases_seq(), true),
    ;

    /// The distinct non-empty `client-hostname` values, in order of first
    /// occurrence.
    fn client_hostnames(&self) -> (r: Vec<String>)
        ensures
            r.deep_view() == distinct_values(self.leases_seq(), false),
    ;

    fn new() -> (r: Leases)
        ensures
            r@ == Seq::<Lease>::empty(),
    ;

    fn push(&mut self, l: Lease)
        ensures
            final(self).leases_seq() == old(self).leases_seq().push(l),
    ;
}

impl LeasesMethods for Leases {
    open spec fn leases_seq(&self) -> Seq<Lease> {
        self@
    }

    fn by_leased(&self, ip: IPAddress) -> (r: Option<Lease>) {
        let mut i = self.0.len();
        proof {
            assert(self@.take(i as int) =~= self@);
        }
        while i > 0
            invariant
                i <= self@.len(),
                find_last_by_ip(self@, ip@) == find_last_by_ip(self@.take(i as int), ip@),
            decreases i,
        {
            i = i - 1;
            let cand = &self.0[i];
            proof {
                let t = self@.take(i + 1);
                assert(t.drop_last() =~= self@.take(i as int));
                assert(t.last() == self@[i as int]);
            }
            if cand.ip == ip {
                return Some(cand.clone());
            }
        }
        None
    }

    fn by_leased_all(&self, ip: IPAddress) -> (r: Vec<Lease>) {
        let mut result: Vec<Lease> = Vec::new();
        let n = self.0.len();
        let mut i: usize = 0;
        proof {
            assert(self@.take(0) =~= Seq::<Lease>::empty());
        }
        while i < n
            invariant
                n == self@.len(),
                i <= n,
                result@ == all_by_ip(self@.take(i as int), ip@),
            decreases n - i,
        {
            let cand = &self.0[i];
            proof {
                let t = self@.take(i + 1);
                assert(t.drop_last() =~= self@.take(i as int));
                assert(t.last() == self@[i as int]);
            }
            if cand.ip == ip {
                result.push(cand.clone());
            }
            i += 1;
        }
        proof {
            assert(self@.take(n as int) =~= self@);
        }
        result
    }

    fn by_mac(&self, mac: MACAddress) -> (r: Option<Lease>) {
        let mut i = self.0.len();
        proof {
            assert(self@.take(i as int) =~= self@);
        }
        while i > 0
            invariant
                i <= self@.len(),
                find_last_by_mac(self@, mac@) == find_last_by_mac(self@.take(i as int), mac@),
            decreases i,
        {
            i = i - 1;
            let cand = &self.0[i];
            proof {
                let t = self@.take(i + 1);
                assert(t.drop_last() =~= self@.take(i as int));
                assert(t.last() == self@[i as int]);
            }
            let matches_mac = match &cand.hardware {
                Some(h) => h.mac == mac,
                None => false,
            };
            if matches_mac {
                return Some(cand.clone());
            }
        }
        None
    }

    fn by_mac_all(&self, mac: MACAddress) -> (r: Vec<Lease>) {
        let mut result: Vec<Lease> = Vec::new();
        let n = self.0.len();
        let mut i: usize = 0;
        proof {
            assert(self@.take(0) =~= Seq::<Lease>::empty());
        }
        while i < n
            invariant
                n == self@.len(),
                i <= n,
                result@ == all_by_mac(self@.take(i as int), mac@),
            decreases n - i,
        {
            let cand = &self.0[i];
            proof {
                let t = self@.take(i + 1);
                assert(t.drop_last() =~= self@.take(i as int));
                assert(t.last() == self@[i as int]);
            }
            let matches_mac = match &cand.hardware {
                Some(h) => h.mac == mac,
                None => false,
            };
            if matches_mac {
                result.push(cand.clone());
            }
            i += 1;
        }
        proof {
            assert(self@.take(n as int) =~= self@);
        }
        result
    }

    fn hostnames(&self) -> (r: Vec<String>) {
        collect_distinct(&self.0, true)
    }

    fn client_hostnames(&self) -> (r: Vec<String>) {
        collect_distinct(&self.0, false)
    }

    fn new() -> (r: Leases) {
        Leases(Vec::new())
    }

    fn push(&mut self, l: Lease) {
        self.0.push(l);
    }
}

/// Walks the leases in file order and gathers the distinct non-empty
/// hostname values (`use_hostname`) or client-hostname values.
fn collect_distinct(leases: &Vec<Lease>, use_hostname: bool) -> (r: Vec<String>)
    ensures
        r.deep_view() == distinct_values(leases@, use_hostname),
{
    let mut result: Vec<String> = Vec::new();
    let n = leases.len();
    let mut i: usize = 0;
    proof {
        assert(leases@.take(0) =~= Seq::<Lease>::empty());
        assert(result.deep_view() =~= Seq::<Seq<char>>::empty());
    }
    while i < n
        invariant
            n == leases@.len(),
            i <= n,
            result.deep_view() == distinct_values(leases@.take(i as int), use_hostname),
        decreases n - i,
    {
        let cand = &leases[i];
        proof {
            let t = leases@.take(i + 1);
            assert(t.drop_last() =~= leases@.take(i as int));
            assert(t.last() == leases@[i as int]);
        }
        let value: Option<&String> = if use_hostname {
            cand.hostname.as_ref()
        } else {
            cand.client_hostname.as_ref()
        };
        if let Some(h) = value {
            if h.as_str().unicode_len() > 0 && !contains_string(&result, h) {
                result.push(h.clone());
                proof {
                    assert(result.deep_view() =~= distinct_values(
                        leases@.take(i + 1),
                        use_hostname,
                    ));
                }
            }
        }
        i += 1;
    }
    proof {
        assert(leases@.take(n as int) =~= leases@);
    }
    result
}

/// Every lease that matches appears in `all_by_ip` of any longer prefix,
/// at the same position with the same value.
proof fn lemma_all_by_ip_contains(s: Seq<Lease>, ip: Seq<char>, i: int)
    requires
        0 <= i < s.len(),
        s[i].ip@ == ip,
    ensures
        exists|a: int|
            0 <= a < all_by_ip(s, ip).len() && all_by_ip(s, ip)[a] == s[i],
    decreases s.len(),
{
    if i == s.len() - 1 {
        let a = all_by_ip(s, ip).len() - 1;
        assert(all_by_ip(s, ip)[a] == s[i]);
    } else {
        lemma_all_by_ip_contains(s.drop_last(), ip, i);
        let a = choose|a: int|
            0 <= a < all_by_ip(s.drop_last(), ip).len() && all_by_ip(s.drop_last(), ip)[a]
                == s.drop_last()[i];
        assert(all_by_ip(s, ip)[a] == s[i]);
    }
}

proof fn lemma_all_by_ip_pair(s: Seq<Lease>, ip: Seq<char>, i: int, j: int)
    requires
        0 <= i < j < s.len(),
        s[i].ip@ == ip,
        s[j].ip@ == ip,
    ensures
        exists|a: int, b: int|
            0 <= a < b < all_by_ip(s, ip).len() && all_by_ip(s, ip)[a] == s[i] && all_by_ip(
                s,
                ip,
            )[b] == s[j],
    decreases s.len(),
{
    if j == s.len() - 1 {
        let b = all_by_ip(s, ip).len() - 1;
        assert(all_by_ip(s, ip)[b] == s[j]);
        lemma_all_by_ip_contains(s.drop_last(), ip, i);
        let a = choose|a: int|
            0 <= a < all_by_ip(s.drop_last(), ip).len() && all_by_ip(s.drop_last(), ip)[a]
                == s.drop_last()[i];
        assert(all_by_ip(s, ip)[a] == s[i]);
    } else {
        lemma_all_by_ip_pair(s.drop_last(), ip, i, j);
        let (a, b) = choose|a: int, b: int|
            0 <= a < b < all_by_ip(s.drop_last(), ip).len() && all_by_ip(s.drop_last(), ip)[a]
                == s.drop_last()[i] && all_by_ip(s.drop_last(), ip)[b] == s.drop_last()[j];
        assert(all_by_ip(s, ip)[a] == s[i] && all_by_ip(s, ip)[b] == s[j]);
    }
}

/// When the same IP is declared twice, the queries prefer the later
/// declaration and keep both: `find_last_by_ip` (behind `by_leased`)
/// returns the lease of the later declaration, and `all_by_ip` (behind
/// `by_leased_all`) holds both leases, in file order.
pub proof fn lemma_latest_declaration_wins(s: Seq<Lease>, ip: Seq<char>, i: int, j: int)
    requires
        0 <= i < j < s.len(),
        s[i].ip@ == ip,
        s[j].ip@ == ip,
        forall|k: int| j < k < s.len() ==> (#[trigger] s[k].ip@) != ip,
    ensures
        find_last_by_ip(s, ip) == Some(s[j]),
        exists|a: int, b: int|
            0 <= a < b < all_by_ip(s, ip).len() && all_by_ip(s, ip)[a] == s[i] && all_by_ip(
                s,
                ip,
            )[b] == s[j],
    decreases s.len(),
{
    lemma_all_by_ip_pair(s, ip, i, j);
    if j == s.len() - 1 {
    } else {
        lemma_latest_declaration_wins(s.drop_last(), ip, i, j);
    }
}

/// The hostname (or client-hostname) collection is a set in file order:
/// no value appears twice, and a value appears exactly when some lease
/// carries it as a non-empty field — leases without the field contribute
/// nothing.
pub proof fn lemma_distinct_values_set(s: Seq<Lease>, use_hostname: bool)
    ensures
        forall|a: int, b: int|
            0 <= a < b < distinct_values(s, use_hostname).len() ==> distinct_values(
                s,
                use_hostname,
            )[a] != distinct_values(s, use_hostname)[b],
        forall|h: Seq<char>|
            #[trigger] distinct_values(s, use_hostname).contains(h) <==> (h.len() > 0 && exists|
                i: int,
            |
                0 <= i < s.len() && selected_value(#[trigger] s[i], use_hostname) == Some(h)),
    decreases s.len(),
{
    let d = distinct_values(s, use_hostname);
    if s.len() == 0 {
        assert forall|h: Seq<char>| #[trigger] d.contains(h) implies false by {
            let a = choose|a: int| 0 <= a < d.len() && d[a] == h;
        }
    } else {
        let pre = distinct_values(s.drop_last(), use_hostname);
        lemma_distinct_values_set(s.drop_last(), use_hostname);
        assert forall|a: int, b: int| 0 <= a < b < d.len() implies d[a] != d[b] by {
            if b == pre.len() && d.len() == pre.len() + 1 {
                assert(!pre.contains(d[b]));
                assert(pre[a] == d[a]);
                if d[a] == d[b] {
                    assert(pre.contains(d[b]));
                }
            }
        }
        assert forall|h: Seq<char>| #[trigger] d.contains(h) implies (h.len() > 0 && exists|i: int|
            0 <= i < s.len() && selected_value(#[trigger] s[i], use_hostname) == Some(h)) by {
            let a = choose|a: int| 0 <= a < d.len() && d[a] == h;
            if a < pre.len() {
                assert(pre.contains(h));
                let i = choose|i: int|
                    0 <= i < s.drop_last().len() && selected_value(
                        #[trigger] s.drop_last()[i],
                        use_hostname,
                    ) == Some(h);
                assert(selected_value(s[i], use_hostname) == Some(h));
            } else {
                assert(selected_value(s[s.len() - 1], use_hostname) == Some(h));
            }
        }
        assert forall|h: Seq<char>|
            (h.len() > 0 && exists|i: int|
                0 <= i < s.len() && selected_value(#[trigger] s[i], use_hostname) == Some(
                    h,
                )) implies #[trigger] d.contains(h) by {
            let i = choose|i: int|
                0 <= i < s.len() && selected_value(#[trigger] s[i], use_hostname) == Some(h);
            if i < s.len() - 1 {
                assert(selected_value(s.drop_last()[i], use_hostname) == Some(h));
                assert(pre.contains(h));
                let a = choose|a: int| 0 <= a < pre.len() && pre[a] == h;
                assert(d[a] == h);
            } else {
                if pre.contains(h) {
                    let a = choose|a: int| 0 <= a < pre.len() && pre[a] == h;
                    assert(d[a] == h);
                } else {
                    assert(d[d.len() - 1] == h);
                }
            }
        }
    }
}

/// A lease updated by one option statement.
pub open spec fn with_starts(l: LeaseView, d: Date) -> LeaseView {
    LeaseView { dates: LeaseDates { starts: Some(d), ..l.dates }, ..l }
}

pub open spec fn with_ends(l: LeaseView, d: Date) -> LeaseView {
    LeaseView { dates: LeaseDates { ends: Some(d), ..l.dates }, ..l }
}

pub open spec fn with_hardware(l: LeaseView, h_type: Seq<char>, mac: Seq<char>) -> LeaseView {
    LeaseView { hardware: Some(HardwareView { h_type, mac }), ..l }
}

pub open spec fn with_uid(l: LeaseView, u: Seq<char>) -> LeaseView {
    LeaseView { uid: Some(u), ..l }
}

pub open spec fn with_client_hostname(l: LeaseView, c: Seq<char>) -> LeaseView {
    LeaseView { client_hostname: Some(c), ..l }
}

pub open spec fn with_hostname(l: LeaseView, h: Seq<char>) -> LeaseView {
    LeaseView { hostname: Some(h), ..l }
}

pub open spec fn with_abandoned(l: LeaseView) -> LeaseView {
    LeaseView { abandoned: true, ..l }
}

/// A value without its surrounding quote pair, if it carries one. The
/// lexer keeps quote characters inside words; lease files quote hostname
/// and identifier values, and their tests expect the bare value, so the
/// parser strips exactly one surrounding pair when it stores a
/// single-token value.
pub open spec fn unquote(w: Seq<char>) -> Seq<char> {
    if w.len() >= 2 && w[0] == '"' && w[w.len() - 1] == '"' {
        w.subrange(1, w.len() - 1)
    } else {
        w
    }
}

/// Decides [`unquote`].
fn unquote_string(w: String) -> (r: String)
    ensures
        r@ == unquote(w@),
{
    let n = w.as_str().unicode_len();
    if n >= 2 && w.as_str().get_char(0) == '"' && w.as_str().get_char(n - 1) == '"' {
        w.as_str().substring_char(1, n - 1).to_owned()
    } else {
        w
    }
}

/// Adds `k` consumed tokens to a successful option-list parse.
pub open spec fn shift_consumed(r: Result<(LeaseView, int), ParseErrorView>, k: int) -> Result<
    (LeaseView, int),
    ParseErrorView,
> {
    match r {
        Ok((l, n)) => Ok((l, n + k)),
        Err(e) => Err(e),
    }
}

/// The number of tokens a `starts`/`ends` statement spans beyond its
/// three arguments: a word right after the time counts as the time-zone
/// tag of a terminator-ended statement, and only then — it must be
/// followed by `;`. Everywhere else a stray word stays in the stream and
/// fails as an unexpected token.
pub open spec fn date_stmt_len(t: Seq<Token>) -> int {
    if t.len() >= 6 && t[4] is Word && t[5] is Endl {
        5
    } else {
        4
    }
}

/// The option list of a lease block, read from the front of `t` into `l`.
/// `Ok((l2, n))` means the options fill `l` up to `l2` and the closing
/// `}` stands at position `n` (not consumed). Statement terminators are
/// skipped. Each option consumes its fixed-arity arguments verbatim — the
/// text of whatever token stands there: `starts`/`ends` read weekday,
/// date and time through `spec_date_from` (plus the time-zone tag of a
/// `;`-terminated statement, see [`date_stmt_len`]); `hardware` reads
/// two; `uid`, `client-hostname` and `hostname` read one, stored without
/// a surrounding quote pair; `abandoned` reads none. A stream exhausted
/// before an option's arguments fails with `MissingArgument`; an
/// unparsable date, a stray token and a stream exhausted before the `}`
/// each fail as stated.
pub open spec fn spec_parse_opts(l: LeaseView, t: Seq<Token>) -> Result<
    (LeaseView, int),
    ParseErrorView,
>
    decreases t.len(),
{
    if t.len() == 0 {
        Err(ParseErrorView::UnterminatedLease)
    } else {
        match t[0] {
            Token::Paren(c) => if c == '}' {
                Ok((l, 0))
            } else {
                Err(ParseErrorView::UnexpectedToken(token_text(t[0])))
            },
            Token::Endl => shift_consumed(spec_parse_opts(l, t.skip(1)), 1),
            Token::Word(w) => Err(ParseErrorView::UnexpectedToken(w)),
            Token::Decl(k) => Err(
                ParseErrorView::UnexpectedToken(crate::parser::config_keyword_str(k)),
            ),
            Token::Opt(k) => match k {
                LeaseKeyword::Abandoned => shift_consumed(
                    spec_parse_opts(with_abandoned(l), t.skip(1)),
                    1,
                ),
                LeaseKeyword::Starts | LeaseKeyword::Ends => if t.len() < 4 {
                    Err(ParseErrorView::MissingArgument(lease_keyword_str(k)))
                } else {
                    match crate::common::spec_date_from(
                        token_text(t[1]),
                        token_text(t[2]),
                        token_text(t[3]),
                    ) {
                        Err(p) => Err(ParseErrorView::InvalidDateFormat(p)),
                        Ok(d) => {
                            let adv = date_stmt_len(t);
                            let l2 = if k == LeaseKeyword::Starts {
                                with_starts(l, d)
                            } else {
                                with_ends(l, d)
                            };
                            shift_consumed(spec_parse_opts(l2, t.skip(adv)), adv)
                        },
                    }
                },
                LeaseKeyword::Hardware => if t.len() < 3 {
                    Err(ParseErrorView::MissingArgument(lease_keyword_str(k)))
                } else {
                    shift_consumed(
                        spec_parse_opts(
                            with_hardware(l, token_text(t[1]), token_text(t[2])),
                            t.skip(3),
                        ),
                        3,
                    )
                },
                LeaseKeyword::Uid => if t.len() < 2 {
                    Err(ParseErrorView::MissingArgument(lease_keyword_str(k)))
                } else {
                    shift_consumed(
                        spec_parse_opts(with_uid(l, unquote(token_text(t[1]))), t.skip(2)),
                        2,
                    )
                },
                LeaseKeyword::ClientHostname => if t.len() < 2 {
                    Err(ParseErrorView::MissingArgument(lease_keyword_str(k)))
                } else {
                    shift_consumed(
                        spec_parse_opts(
                            with_client_hostname(l, unquote(token_text(t[1]))),
                            t.skip(2),
                        ),
                        2,
                    )
                },
                LeaseKeyword::Hostname => if t.len() < 2 {
                    Err(ParseErrorView::MissingArgument(lease_keyword_str(k)))
                } else {
                    shift_consumed(
                        spec_parse_opts(with_hostname(l, unquote(token_text(t[1]))), t.skip(2)),
                        2,
                    )
                },
            },
        }
    }
}

/// A successful option-list parse always stops at a closing brace inside
/// the stream.
pub proof fn lemma_parse_opts_ok(l: LeaseView, t: Seq<Token>)
    ensures
        spec_parse_opts(l, t) matches Ok((l2, n)) ==> 0 <= n < t.len() && t[n] == Token::Paren('}'),
    decreases t.len(),
{
    if t.len() > 0 {
        match t[0] {
            Token::Endl => {
                lemma_parse_opts_ok(l, t.skip(1));
            },
            Token::Opt(k) => match k {
                LeaseKeyword::Abandoned => {
                    lemma_parse_opts_ok(with_abandoned(l), t.skip(1));
                },
                LeaseKeyword::Starts | LeaseKeyword::Ends => {
                    if t.len() >= 4 {
                        match crate::common::spec_date_from(
                            token_text(t[1]),
                            token_text(t[2]),
                            token_text(t[3]),
                        ) {
                            Ok(d) => {
                                let adv = date_stmt_len(t);
                                let l2 = if k == LeaseKeyword::Starts {
                                    with_starts(l, d)
                                } else {
                                    with_ends(l, d)
                                };
                                lemma_parse_opts_ok(l2, t.skip(adv));
                            },
                            Err(_) => {
                            },
                        }
                    }
                },
                LeaseKeyword::Hardware => {
                    if t.len() >= 3 {
                        lemma_parse_opts_ok(
                            with_hardware(l, token_text(t[1]), token_text(t[2])),
                            t.skip(3),
                        );
                    }
                },
                LeaseKeyword::Uid => {
                    if t.len() >= 2 {
                        lemma_parse_opts_ok(with_uid(l, unquote(token_text(t[1]))), t.skip(2));
                    }
                },
                LeaseKeyword::ClientHostname => {
                    if t.len() >= 2 {
                        lemma_parse_opts_ok(
                            with_client_hostname(l, unquote(token_text(t[1]))),
                            t.skip(2),
                        );
                    }
                },
                LeaseKeyword::Hostname => {
                    if t.len() >= 2 {
                        lemma_parse_opts_ok(with_hostname(l, unquote(token_text(t[1]))), t.skip(2));
                    }
                },
            },
            _ => {
            },
        }
    }
}

/// A lease block missing its closing `}` fails with `UnterminatedLease`:
/// whenever an option list parses successfully up to a closing brace that
/// is the appended final token, the same option list without that brace
/// runs off the end of the stream and fails exactly so.
pub proof fn lemma_unterminated_lease(l: LeaseView, t: Seq<Token>)
    requires
        spec_parse_opts(l, t.push(Token::Paren('}'))) matches Ok((l2, n)) && n == t.len(),
    ensures
        spec_parse_opts(l, t) == Err::<(LeaseView, int), ParseErrorView>(
            ParseErrorView::UnterminatedLease,
        ),
    decreases t.len(),
{
    let u = t.push(Token::Paren('}'));
    if t.len() == 0 {
    } else {
        assert(u[0] == t[0]);
        match t[0] {
            Token::Paren(c) => {
                assert(c != '}');
            },
            Token::Endl => {
                assert(u.skip(1) =~= t.skip(1).push(Token::Paren('}')));
                lemma_unterminated_lease(l, t.skip(1));
            },
            Token::Word(_) => {
            },
            Token::Decl(_) => {
            },
            Token::Opt(k) => match k {
                LeaseKeyword::Abandoned => {
                    assert(u.skip(1) =~= t.skip(1).push(Token::Paren('}')));
                    lemma_unterminated_lease(with_abandoned(l), t.skip(1));
                },
                LeaseKeyword::Starts | LeaseKeyword::Ends => {
                    assert(u.len() >= 4);
                    assert(t.len() >= 3);
                    if t.len() == 3 {
                        // The appended brace would be read as the time
                        // argument, and `}` is no time: the block with the
                        // brace appended could not have parsed.
                        assert(token_text(u[3]) == "}"@);
                        proof_brace_is_no_time(token_text(u[1]), token_text(u[2]));
                    } else {
                        match crate::common::spec_date_from(
                            token_text(t[1]),
                            token_text(t[2]),
                            token_text(t[3]),
                        ) {
                            Err(_) => {
                            },
                            Ok(d) => {
                                let adv = date_stmt_len(t);
                                assert(date_stmt_len(u) == adv);
                                let l2 = if k == LeaseKeyword::Starts {
                                    with_starts(l, d)
                                } else {
                                    with_ends(l, d)
                                };
                                assert(u.skip(adv) =~= t.skip(adv).push(Token::Paren('}')));
                                lemma_unterminated_lease(l2, t.skip(adv));
                            },
                        }
                    }
                },
                LeaseKeyword::Hardware => {
                    assert(u.len() >= 3);
                    if t.len() == 2 {
                        // The appended brace is read as the MAC argument and
                        // consumed; the stream behind it is then empty, so
                        // the block with the brace appended could not have
                        // parsed either.
                        assert(u.skip(3) =~= Seq::<Token>::empty());
                        assert(spec_parse_opts(
                            with_hardware(l, token_text(u[1]), token_text(u[2])),
                            u.skip(3),
                        ) == Err::<(LeaseView, int), ParseErrorView>(
                            ParseErrorView::UnterminatedLease,
                        ));
                    } else {
                        assert(u.skip(3) =~= t.skip(3).push(Token::Paren('}')));
                        lemma_unterminated_lease(
                            with_hardware(l, token_text(t[1]), token_text(t[2])),
                            t.skip(3),
                        );
                    }
                },
                LeaseKeyword::Uid => {
                    assert(u.len() >= 2);
                    if t.len() == 1 {
                        assert(u.skip(2) =~= Seq::<Token>::empty());
                        assert(spec_parse_opts(with_uid(l, unquote(token_text(u[1]))), u.skip(2))
                            == Err::<(LeaseView, int), ParseErrorView>(
                            ParseErrorView::UnterminatedLease,
                        ));
                    } else {
                        assert(u.skip(2) =~= t.skip(2).push(Token::Paren('}')));
                        lemma_unterminated_lease(with_uid(l, unquote(token_text(t[1]))), t.skip(2));
                    }
                },
                LeaseKeyword::ClientHostname => {
                    assert(u.len() >= 2);
                    if t.len() == 1 {
                        assert(u.skip(2) =~= Seq::<Token>::empty());
                        assert(spec_parse_opts(
                            with_client_hostname(l, unquote(token_text(u[1]))),
                            u.skip(2),
                        ) == Err::<(LeaseView, int), ParseErrorView>(
                            ParseErrorView::UnterminatedLease,
                        ));
                    } else {
                        assert(u.skip(2) =~= t.skip(2).push(Token::Paren('}')));
                        lemma_unterminated_lease(
                            with_client_hostname(l, unquote(token_text(t[1]))),
                            t.skip(2),
                        );
                    }
                },
                LeaseKeyword::Hostname => {
                    assert(u.len() >= 2);
                    if t.len() == 1 {
                        assert(u.skip(2) =~= Seq::<Token>::empty());
                        assert(spec_parse_opts(
                            with_hostname(l, unquote(token_text(u[1]))),
                            u.skip(2),
                        ) == Err::<(LeaseView, int), ParseErrorView>(
                            ParseErrorView::UnterminatedLease,
                        ));
                    } else {
                        assert(u.skip(2) =~= t.skip(2).push(Token::Paren('}')));
                        lemma_unterminated_lease(
                            with_hostname(l, unquote(token_text(t[1]))),
                            t.skip(2),
                        );
                    }
                },
            },
        }
    }
}

/// A closing brace cannot stand for a time argument: its text has no `:`
/// field structure, so the date parse fails whatever the other two
/// arguments hold.
proof fn proof_brace_is_no_time(w: Seq<char>, d: Seq<char>)
    ensures
        !(crate::common::spec_date_from(w, d, "}"@) is Ok),
{
    reveal_strlit("}");
    assert("}"@.len() == 1 && "}"@[0] == '}');
    let tp = crate::common::split_on("}"@, ':');
    assert("}"@.drop_first() =~= Seq::<char>::empty());
    assert(crate::common::split_on(Seq::<char>::empty(), ':') =~= seq![Seq::<char>::empty()]);
    assert(crate::common::split_on("}"@.drop_first(), ':') =~= seq![Seq::<char>::empty()]);
    assert(tp.len() == 1);
}

/// No option statement touches the lease's IP: a successful option-list
/// parse returns a lease with the IP it started with, taken verbatim.
pub proof fn lemma_parse_opts_keeps_ip(l: LeaseView, t: Seq<Token>)
    ensures
        spec_parse_opts(l, t) matches Ok((l2, n)) ==> l2.ip == l.ip,
    decreases t.len(),
{
    if t.len() > 0 {
        match t[0] {
            Token::Endl => {
                lemma_parse_opts_keeps_ip(l, t.skip(1));
            },
            Token::Opt(k) => match k {
                LeaseKeyword::Abandoned => {
                    lemma_parse_opts_keeps_ip(with_abandoned(l), t.skip(1));
                },
                LeaseKeyword::Starts | LeaseKeyword::Ends => {
                    if t.len() >= 4 {
                        match crate::common::spec_date_from(
                            token_text(t[1]),
                            token_text(t[2]),
                            token_text(t[3]),
                        ) {
                            Ok(d) => {
                                let adv = date_stmt_len(t);
                                let l2 = if k == LeaseKeyword::Starts {
                                    with_starts(l, d)
                                } else {
                                    with_ends(l, d)
                                };
                                lemma_parse_opts_keeps_ip(l2, t.skip(adv));
                            },
                            Err(_) => {
                            },
                        }
                    }
                },
                LeaseKeyword::Hardware => {
                    if t.len() >= 3 {
                        lemma_parse_opts_keeps_ip(
                            with_hardware(l, token_text(t[1]), token_text(t[2])),
                            t.skip(3),
                        );
                    }
                },
                LeaseKeyword::Uid => {
                    if t.len() >= 2 {
                        lemma_parse_opts_keeps_ip(with_uid(l, unquote(token_text(t[1]))), t.skip(2));
                    }
                },
                LeaseKeyword::ClientHostname => {
                    if t.len() >= 2 {
                        lemma_parse_opts_keeps_ip(
                            with_client_hostname(l, unquote(token_text(t[1]))),
                            t.skip(2),
                        );
                    }
                },
                LeaseKeyword::Hostname => {
                    if t.len() >= 2 {
                        lemma_parse_opts_keeps_ip(with_hostname(l, unquote(token_text(t[1]))), t.skip(2));
                    }
                },
            },
            _ => {
            },
        }
    }
}

proof fn lemma_shift_shift(r: Result<(LeaseView, int), ParseErrorView>, a: int, b: int)
    ensures
        shift_consumed(shift_consumed(r, a), b) == shift_consumed(r, a + b),
{
}

/// Reads option statements into `lease`, advancing `pos` over `tokens`
/// until the closing `}` (left unconsumed), exactly as
/// [`spec_parse_opts`] states; on failure the spec's error is returned.
#[verifier::rlimit(60)]
pub fn parse_lease(lease: &mut Lease, tokens: &Vec<LexItem>, pos: &mut usize) -> (r: Result<
    (),
    ParseError,
>)
    requires
        *old(pos) <= tokens@.len(),
    ensures
        match spec_parse_opts(old(lease)@, tokens.deep_view().skip(*old(pos) as int)) {
            Ok((lv, n)) => r is Ok && final(lease)@ == lv && *final(pos) == *old(pos) + n
                && *final(pos) < tokens@.len()
                && tokens.deep_view()[*final(pos) as int] == Token::Paren('}'),
            Err(e) => r matches Err(pe) && pe@ == e,
        },
{
    let ghost tv = tokens.deep_view();
    let ghost l0 = lease@;
    let ghost start_pos = *pos;
    let n_toks = tokens.len();
    loop
        invariant
            n_toks == tokens@.len(),
            tv == tokens.deep_view(),
            start_pos == *old(pos),
            l0 == old(lease)@,
            start_pos <= *pos <= n_toks,
            spec_parse_opts(l0, tv.skip(start_pos as int)) == shift_consumed(
                spec_parse_opts(lease@, tv.skip(*pos as int)),
                *pos - start_pos,
            ),
        decreases n_toks - *pos,
    {
        if *pos == n_toks {
            proof {
                assert(tv.skip(*pos as int) =~= Seq::<Token>::empty());
            }
            return Err(ParseError::UnterminatedLease);
        }
        let ghost rest = tv.skip(*pos as int);
        let ghost l_at = lease@;
        proof {
            assert(rest[0] == tv[*pos as int]);
        }
        let tok = &tokens[*pos];
        match tok {
            LexItem::Paren(c) => {
                if *c == '}' {
                    return Ok(());
                } else {
                    return Err(ParseError::UnexpectedToken(tok.to_string()));
                }
            },
            LexItem::Endl => {
                proof {
                    assert(rest.skip(1) =~= tv.skip(*pos + 1));
                    lemma_shift_shift(
                        spec_parse_opts(lease@, tv.skip(*pos + 1)),
                        1,
                        *pos - start_pos,
                    );
                }
                *pos += 1;
            },
            LexItem::Word(_) => {
                return Err(ParseError::UnexpectedToken(tok.to_string()));
            },
            LexItem::Decl(_) => {
                return Err(ParseError::UnexpectedToken(tok.to_string()));
            },
            LexItem::Opt(kw) => match kw {
                LeaseKeyword::Abandoned => {
                    lease.abandoned = true;
                    proof {
                        assert(lease@ =~= with_abandoned(l_at));
                        assert(rest.skip(1) =~= tv.skip(*pos + 1));
                        lemma_shift_shift(
                            spec_parse_opts(lease@, tv.skip(*pos + 1)),
                            1,
                            *pos - start_pos,
                        );
                    }
                    *pos += 1;
                },
                LeaseKeyword::Starts | LeaseKeyword::Ends => {
                    let is_starts = match kw {
                        LeaseKeyword::Starts => true,
                        _ => false,
                    };
                    if n_toks - *pos < 4 {
                        return Err(ParseError::MissingArgument(kw.to_string()));
                    }
                    let a = tokens[*pos + 1].to_string();
                    let b = tokens[*pos + 2].to_string();
                    let c = tokens[*pos + 3].to_string();
                    match crate::common::Date::from(a, b, c) {
                        Ok(d) => {
                            if is_starts {
                                lease.dates.starts = Some(d);
                            } else {
                                lease.dates.ends = Some(d);
                            }
                            let has_tz = if n_toks - *pos >= 6 {
                                match (&tokens[*pos + 4], &tokens[*pos + 5]) {
                                    (LexItem::Word(_), LexItem::Endl) => true,
                                    _ => false,
                                }
                            } else {
                                false
                            };
                            let adv: usize = if has_tz {
                                5
                            } else {
                                4
                            };
                            proof {
                                assert(date_stmt_len(rest) == adv);
                                assert(rest.skip(adv as int) =~= tv.skip(*pos + adv));
                                assert(lease@ =~= if is_starts {
                                    with_starts(l_at, d)
                                } else {
                                    with_ends(l_at, d)
                                });
                                lemma_shift_shift(
                                    spec_parse_opts(lease@, tv.skip(*pos + adv)),
                                    adv as int,
                                    *pos - start_pos,
                                );
                            }
                            *pos += adv;
                        },
                        Err(e) => {
                            return Err(e);
                        },
                    }
                },
                LeaseKeyword::Hardware => {
                    if n_toks - *pos < 3 {
                        return Err(ParseError::MissingArgument(kw.to_string()));
                    }
                    let a = tokens[*pos + 1].to_string();
                    let b = tokens[*pos + 2].to_string();
                    let ghost av = a@;
                    let ghost bv = b@;
                    lease.hardware = Some(Hardware { h_type: a, mac: b });
                    proof {
                        assert(lease@ =~= with_hardware(l_at, av, bv));
                        assert(rest.skip(3) =~= tv.skip(*pos + 3));
                        lemma_shift_shift(
                            spec_parse_opts(lease@, tv.skip(*pos + 3)),
                            3,
                            *pos - start_pos,
                        );
                    }
                    *pos += 3;
                },
                LeaseKeyword::Uid => {
                    if n_toks - *pos < 2 {
                        return Err(ParseError::MissingArgument(kw.to_string()));
                    }
                    let a = unquote_string(tokens[*pos + 1].to_string());
                    let ghost av = a@;
                    lease.uid = Some(a);
                    proof {
                        assert(lease@ =~= with_uid(l_at, av));
                        assert(rest.skip(2) =~= tv.skip(*pos + 2));
                        lemma_shift_shift(
                            spec_parse_opts(lease@, tv.skip(*pos + 2)),
                            2,
                            *pos - start_pos,
                        );
                    }
                    *pos += 2;
                },
                LeaseKeyword::ClientHostname => {
                    if n_toks - *pos < 2 {
                        return Err(ParseError::MissingArgument(kw.to_string()));
                    }
                    let a = unquote_string(tokens[*pos + 1].to_string());
                    let ghost av = a@;
                    lease.client_hostname = Some(a);
                    proof {
                        assert(lease@ =~= with_client_hostname(l_at, av));
                        assert(rest.skip(2) =~= tv.skip(*pos + 2));
                        lemma_shift_shift(
                            spec_parse_opts(lease@, tv.skip(*pos + 2)),
                            2,
                            *pos - start_pos,
                        );
                    }
                    *pos += 2;
                },
                LeaseKeyword::Hostname => {
                    if n_toks - *pos < 2 {
                        return Err(ParseError::MissingArgument(kw.to_string()));
                    }
                    let a = unquote_string(tokens[*pos + 1].to_string());
                    let ghost av = a@;
                    lease.hostname = Some(a);
                    proof {
                        assert(lease@ =~= with_hostname(l_at, av));
                        assert(rest.skip(2) =~= tv.skip(*pos + 2));
                        lemma_shift_shift(
                            spec_parse_opts(lease@, tv.skip(*pos + 2)),
                            2,
                            *pos - start_pos,
                        );
                    }
                    *pos += 2;
                },
            },
        }
    }
}

/// Whether `v` already holds a string with this text.
fn contains_string(v: &Vec<String>, s: &String) -> (r: bool)
    ensures
        r == v.deep_view().contains(s@),
{
    let n = v.len();
    let mut i: usize = 0;
    while i < n
        invariant
            n == v@.len(),
            i <= n,
            forall|k: int| 0 <= k < i ==> v.deep_view()[k] != s@,
        decreases n - i,
    {
        if v[i] == *s {
            assert(v.deep_view()[i as int] == s@);
            return true;
        }
        i += 1;
    }
    proof {
        if v.deep_view().contains(s@) {
            let k = choose|k: int| 0 <= k < v.deep_view().len() && v.deep_view()[k] == s@;
            assert(v.deep_view()[k] != s@);
        }
    }
    false
}

} // verus!

use vstd::prelude::*;

verus! {

/// One observed network access event, extracted from a single log line.
///
/// The destination triple (`protocol`, `dst_domain`, `dst_port`) is
/// all-or-nothing: either the source line carried a well-formed
/// `protocol:domain:port` suffix and all three are present, or all
/// three are absent.  `id` is a surrogate key assigned by the store on
/// insert; before persistence it is `0`.
#[derive(Debug)]
pub struct AccessInfo {
    pub id: u64,
    pub time: String,
    pub src_port: Option<u32>,
    pub src_ip: Option<String>,
    pub dst_port: Option<u32>,
    pub dst_domain: Option<String>,
    pub state: Option<String>,
    pub protocol: Option<String>,
    pub tag: Option<String>,
}

/// Mathematical image of an `AccessInfo`: every string as a character
/// sequence, and without the surrogate `id`.  Two records with equal
/// `AccessRec` images are duplicates for the store's insert-or-ignore
/// policy, whatever their ids.
pub ghost struct AccessRec {
    pub time: Seq<char>,
    pub src_port: Option<u32>,
    pub src_ip: Option<Seq<char>>,
    pub dst_port: Option<u32>,
    pub dst_domain: Option<Seq<char>>,
    pub state: Option<Seq<char>>,
    pub protocol: Option<Seq<char>>,
    pub tag: Option<Seq<char>>,
}

impl View for AccessInfo {
    type V = AccessRec;

    open spec fn view(&self) -> AccessRec {
        AccessRec {
            time: self.time@,
            src_port: self.src_port,
            src_ip: self.src_ip.deep_view(),
            dst_port: self.dst_port,
            dst_domain: self.dst_domain.deep_view(),
            state: self.state.deep_view(),
            protocol: self.protocol.deep_view(),
            tag: self.tag.deep_view(),
        }
    }
}

/// Clones an optional string, keeping its characters.
pub(crate) fn clone_opt_string(a: &Option<String>) -> (r: Option<String>)
    ensures
        r.deep_view() == a.deep_view(),
{
    match a {
        Some(s) => Some(s.clone()),
        None => None,
    }
}

/// Whether two optional strings hold the same characters.
pub(crate) fn opt_string_eq(a: &Option<String>, b: &Option<String>) -> (r: bool)
    ensures
        r == (a.deep_view() == b.deep_view()),
{
    match (a, b) {
        (Some(x), Some(y)) => x.eq(y),
        (None, None) => true,
        _ => false,
    }
}

/// Whether two optional numbers are equal.
pub(crate) fn opt_u32_eq(a: &Option<u32>, b: &Option<u32>) -> (r: bool)
    ensures
        r == (*a == *b),
{
    match (a, b) {
        (Some(x), Some(y)) => *x == *y,
        (None, None) => true,
        _ => false,
    }
}

impl Clone for AccessInfo {
    /// A copy with the same fields, id included.
    fn clone(&self) -> (r: Self)
        ensures
            r@ == self@,
            r.id == self.id,
    {
        AccessInfo {
            id: self.id,
            time: self.time.clone(),
            src_port: self.src_port,
            src_ip: clone_opt_string(&self.src_ip),
            dst_port: self.dst_port,
            dst_domain: clone_opt_string(&self.dst_domain),
            state: clone_opt_string(&self.state),
            protocol: clone_opt_string(&self.protocol),
            tag: clone_opt_string(&self.tag),
        }
    }
}

/// Whether two records carry the same attributes, ids aside: the
/// store's duplicate test.
pub(crate) fn same_record(a: &AccessInfo, b: &AccessInfo) -> (r: bool)
    ensures
        r == (a@ == b@),
{
    a.time.eq(&b.time) && opt_u32_eq(&a.src_port, &b.src_port) && opt_string_eq(
        &a.src_ip,
        &b.src_ip,
    ) && opt_u32_eq(&a.dst_port, &b.dst_port) && opt_string_eq(&a.dst_domain, &b.dst_domain)
        && opt_string_eq(&a.state, &b.state) && opt_string_eq(&a.protocol, &b.protocol)
        && opt_string_eq(&a.tag, &b.tag)
}

/// Count of accesses per destination domain, one row of the
/// top-domains aggregate.
#[derive(Debug)]
pub struct AccessStatistics {
    pub domain: String,
    pub count: u64,
}

impl View for AccessStatistics {
    type V = (Seq<char>, u64);

    open spec fn view(&self) -> (Seq<char>, u64) {
        (self.domain@, self.count)
    }
}

impl Clone for AccessStatistics {
    /// A copy with the same domain and count.
    fn clone(&self) -> (r: Self)
        ensures
            r@ == self@,
    {
        AccessStatistics { domain: self.domain.clone(), count: self.count }
    }
}

/// Count of accesses whose timestamp falls on one requested day.
#[derive(Debug)]
pub struct DayStatistics {
    pub date_name: String,
    pub domain_count: u64,
}

impl View for DayStatistics {
    type V = (Seq<char>, u64);

    open spec fn view(&self) -> (Seq<char>, u64) {
        (self.date_name@, self.domain_count)
    }
}

} // verus!

//! Choosing the serial device to talk to.
use vstd::prelude::*;

verus! {

/// USB vendor id of the display hardware's serial adapter, preferred over
/// any other endpoint.
pub const PREFERRED_VENDOR: u16 = 0x0403;

/// One serial endpoint as enumerated by the system.
#[derive(Clone, Debug)]
pub struct Endpoint {
    /// The name the endpoint is opened by (a path or a port name).
    pub name: String,
    /// The USB vendor id, for an endpoint on the USB bus; `None` for any other.
    pub usb_vendor: Option<u16>,
}

/// The system could not enumerate its serial endpoints.
#[derive(Clone, Copy, Debug, PartialEq, Eq)]
pub struct DiscoveryError;

/// What to do with the result of one enumeration.
#[derive(Clone, Debug)]
pub enum DiscoveryAction {
    /// Use this device.
    Use(String),
    /// Nothing suitable was found: ask the operator for a device name.
    Prompt,
    /// Enumeration failed: report it, wait, and enumerate again.
    RetryLater,
}

/// What the operator's answer to the device prompt means.
#[derive(Clone, Debug)]
pub enum PromptAnswer {
    Device(String),
    /// An empty answer: stop, successfully.
    Abort,
}

pub open spec fn is_usb(e: Endpoint) -> bool {
    e.usb_vendor.is_some()
}

pub open spec fn is_preferred(e: Endpoint) -> bool {
    e.usb_vendor == Some(PREFERRED_VENDOR)
}

/// `i` is the first index of `eps` whose endpoint is preferred (or, when
/// `preferred_only` is false, is a USB endpoint at all).
pub open spec fn is_first(eps: Seq<Endpoint>, i: int, preferred_only: bool) -> bool {
    &&& 0 <= i < eps.len()
    &&& (if preferred_only { is_preferred(eps[i]) } else { is_usb(eps[i]) })
    &&& forall|j: int|
        0 <= j < i ==> !(if preferred_only {
            is_preferred(#[trigger] eps[j])
        } else {
            is_usb(eps[j])
        })
}

pub open spec fn has_match(eps: Seq<Endpoint>, preferred_only: bool) -> bool {
    exists|i: int| is_first(eps, i, preferred_only)
}

/// The endpoint discovery settles on: the first one of the preferred vendor;
/// failing that, the first USB endpoint; failing that, none.
pub open spec fn chosen_index(eps: Seq<Endpoint>) -> Option<int> {
    if has_match(eps, true) {
        Some(choose|i: int| is_first(eps, i, true))
    } else if has_match(eps, false) {
        Some(choose|i: int| is_first(eps, i, false))
    } else {
        None
    }
}

proof fn lemma_first_unique(eps: Seq<Endpoint>, i: int, k: int, preferred_only: bool)
    requires
        is_first(eps, i, preferred_only),
        is_first(eps, k, preferred_only),
    ensures
        i == k,
{
    if i < k {
        assert(!(if preferred_only { is_preferred(eps[i]) } else { is_usb(eps[i]) }));
    } else if k < i {
        assert(!(if preferred_only { is_preferred(eps[k]) } else { is_usb(eps[k]) }));
    }
}

/// Index of the first endpoint that matches, scanning in enumeration order.
fn find_first(eps: &Vec<Endpoint>, preferred_only: bool) -> (r: Option<usize>)
    ensures
        match r {
            Some(i) => is_first(eps@, i as int, preferred_only),
            None => !has_match(eps@, preferred_only),
        },
{
    let mut i: usize = 0;
    while i < eps.len()
        invariant
            i <= eps@.len(),
            forall|j: int|
                0 <= j < i ==> !(if preferred_only {
                    is_preferred(#[trigger] eps@[j])
                } else {
                    is_usb(eps@[j])
                }),
        decreases eps@.len() - i,
    {
        let hit = if preferred_only {
            match eps[i].usb_vendor {
                Some(v) => v == PREFERRED_VENDOR,
                None => false,
            }
        } else {
            eps[i].usb_vendor.is_some()
        };
        if hit {
            return Some(i);
        }
        i = i + 1;
    }
    proof {
        assert forall|k: int| !is_first(eps@, k, preferred_only) by {
            if 0 <= k < eps@.len() {
                assert(!(if preferred_only { is_preferred(eps@[k]) } else { is_usb(eps@[k]) }));
            }
        }
    }
    None
}

/// Picks a device among enumerated endpoints: the first whose USB vendor is
/// the preferred one, else the first USB endpoint, else none.
pub fn select_endpoint(eps: &Vec<Endpoint>) -> (r: Option<String>)
    ensures
        match chosen_index(eps@) {
            Some(i) => r.is_some() && r.unwrap()@ == eps@[i].name@,
            None => r.is_none(),
        },
{
    match find_first(eps, true) {
        Some(i) => {
            proof {
                let c = choose|k: int| is_first(eps@, k, true);
                lemma_first_unique(eps@, i as int, c, true);
            }
            Some(eps[i].name.clone())
        },
        None => match find_first(eps, false) {
            Some(i) => {
                proof {
                    let c = choose|k: int| is_first(eps@, k, false);
                    lemma_first_unique(eps@, i as int, c, false);
                }
                Some(eps[i].name.clone())
            },
            None => None,
        },
    }
}

/// Decides what follows one enumeration of the serial endpoints.
pub fn discovery_action(listing: &Result<Vec<Endpoint>, DiscoveryError>) -> (a: DiscoveryAction)
    ensures
        match listing {
            Err(_) => a is RetryLater,
            Ok(eps) => match chosen_index(eps@) {
                Some(i) => a is Use && a->Use_0@ == eps@[i].name@,
                None => a is Prompt,
            },
        },
{
    match listing {
        Err(_) => DiscoveryAction::RetryLater,
        Ok(eps) => match select_endpoint(eps) {
            Some(name) => DiscoveryAction::Use(name),
            None => DiscoveryAction::Prompt,
        },
    }
}

pub open spec fn is_line_end(c: char) -> bool {
    c == '\n' || c == '\r'
}

/// The operator's line without the line-ending characters at its end.
pub open spec fn strip_line_end(s: Seq<char>) -> Seq<char>
    decreases s.len(),
{
    if s.len() > 0 && is_line_end(s.last()) {
        strip_line_end(s.drop_last())
    } else {
        s
    }
}

/// Reads the operator's answer to the device prompt: the line without its
/// line ending names the device; an empty one asks to stop.
pub fn prompt_answer(line: &str) -> (r: PromptAnswer)
    ensures
        strip_line_end(line@).len() == 0 ==> r is Abort,
        strip_line_end(line@).len() > 0 ==> r is Device && r->Device_0@ == strip_line_end(line@),
{
    let mut end: usize = line.unicode_len();
    let mut done = false;
    assert(line@.subrange(0, end as int) =~= line@);
    while end > 0 && !done
        invariant
            end <= line@.len(),
            strip_line_end(line@) == strip_line_end(line@.subrange(0, end as int)),
            done ==> end > 0 && !is_line_end(line@[end - 1]),
        decreases end + (if done { 0int } else { 1int }),
    {
        let c = line.get_char(end - 1);
        if c == '\n' || c == '\r' {
            proof {
                let s = line@.subrange(0, end as int);
                assert(s.drop_last() =~= line@.subrange(0, end - 1));
            }
            end = end - 1;
        } else {
            done = true;
        }
    }
    proof {
        let s = line@.subrange(0, end as int);
        assert(strip_line_end(s) == s);
    }
    if end == 0 {
        PromptAnswer::Abort
    } else {
        PromptAnswer::Device(line.substring_char(0, end).to_string())
    }
}

} // verus!

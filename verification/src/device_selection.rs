//! Identifies the pen top-level collection; the CTL-460 mouse collection cannot
//! initialize pen mode.
use vstd::prelude::*;

verus! {

/// A HID top-level collection as enumerated: interface number, usage page, usage.
pub type Collection = (i32, u16, u16);

pub open spec fn spec_is_pen(c: Collection) -> bool {
    c.0 == 0 && c.1 == 0x0d && c.2 == 1
}

/// The pen collection is interface 0 with the digitizer usage page and pen usage.
pub fn is_pen_collection(interface: i32, usage_page: u16, usage: u16) -> (r: bool)
    ensures
        r == spec_is_pen((interface, usage_page, usage)),
{
    interface == 0 && usage_page == 0x0d && usage == 1
}

pub open spec fn not_found_message() -> Seq<char> {
    "CTL-460 pen interface not found. Reconnect the tablet and refresh. The mouse and auxiliary interfaces cannot initialize pen mode."@
}

pub open spec fn multiple_message() -> Seq<char> {
    "Multiple CTL-460 pens found. Select the pen you want to use."@
}

/// Never silently choose between multiple physical pens, or fall back to a mouse collection.
pub fn automatic_index(collections: &[Collection]) -> (r: Result<usize, String>)
    ensures
        match r {
            Ok(i) => {
                &&& i < collections@.len()
                &&& spec_is_pen(collections@[i as int])
                &&& forall|j: int|
                    0 <= j < collections@.len() && j != i ==> !spec_is_pen(#[trigger] collections@[j])
            },
            Err(e) => {
                ||| (forall|j: int| 0 <= j < collections@.len() ==> !spec_is_pen(#[trigger] collections@[j]))
                    && e@ == not_found_message()
                ||| (exists|a: int, b: int|
                    0 <= a < b < collections@.len() && spec_is_pen(#[trigger] collections@[a])
                        && spec_is_pen(#[trigger] collections@[b])) && e@ == multiple_message()
            },
        },
{
    let mut found: Option<usize> = None;
    let n = collections.len();
    let mut i: usize = 0;
    while i < n
        invariant
            n == collections@.len(),
            i <= n,
            match found {
                None => forall|j: int| 0 <= j < i ==> !spec_is_pen(#[trigger] collections@[j]),
                Some(k) => k < i && spec_is_pen(collections@[k as int]) && forall|j: int|
                    0 <= j < i && j != k ==> !spec_is_pen(#[trigger] collections@[j]),
            },
        decreases n - i,
    {
        let c = collections[i];
        if is_pen_collection(c.0, c.1, c.2) {
            match found {
                None => {
                    found = Some(i);
                },
                Some(k) => {
                    assert(spec_is_pen(collections@[k as int]) && spec_is_pen(collections@[i as int]));
                    return Err("Multiple CTL-460 pens found. Select the pen you want to use.".to_owned());
                },
            }
        }
        i += 1;
    }
    match found {
        Some(k) => Ok(k),
        None => Err("CTL-460 pen interface not found. Reconnect the tablet and refresh. The mouse and auxiliary interfaces cannot initialize pen mode.".to_owned()),
    }
}

} // verus!

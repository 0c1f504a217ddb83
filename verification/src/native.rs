//! The network adapters Windows reports, and which one the engine binds to.
use vstd::prelude::*;
use crate::text::{chars_of, lower, lowered, same, text_result};
use crate::message::message;

verus! {

/// One network adapter as Windows reports it. The name is the adapter's own
/// identifier, which survives a rename or a new address; the rest is for the
/// person choosing one.
#[derive(Clone, Debug)]
pub struct Adapter {
    pub name: String,
    pub label: String,
    pub address: String,
    pub up: bool,
}

/// The first adapter whose name matches, ignoring ASCII case.
pub open spec fn find_adapter(adapters: Seq<Adapter>, name: Seq<char>) -> Option<int>
    decreases adapters.len(),
{
    if adapters.len() == 0 {
        None
    } else if lower(adapters[0].name@) == lower(name) {
        Some(0)
    } else {
        match find_adapter(adapters.drop_first(), name) {
            Some(i) => Some(i + 1),
            None => None,
        }
    }
}

pub proof fn lemma_find_adapter(adapters: Seq<Adapter>, name: Seq<char>)
    ensures
        find_adapter(adapters, name) matches Some(i) ==> 0 <= i < adapters.len() && lower(
            adapters[i].name@,
        ) == lower(name) && forall|j: int| 0 <= j < i ==> lower(#[trigger] adapters[j].name@) != lower(name),
        find_adapter(adapters, name) is None ==> forall|j: int|
            0 <= j < adapters.len() ==> lower(#[trigger] adapters[j].name@) != lower(name),
    decreases adapters.len(),
{
    if adapters.len() > 0 {
        lemma_find_adapter(adapters.drop_first(), name);
        assert forall|j: int| 0 < j < adapters.len() implies adapters[j] == adapters.drop_first()[j - 1] by {}
    }
}

/// The address to bind to for a saved adapter, or why it cannot be used.
pub open spec fn address_for(adapters: Seq<Adapter>, name: Seq<char>) -> Result<Seq<char>, Seq<char>> {
    match find_adapter(adapters, name) {
        None => Err("ADAPTER_NOT_FOUND"@),
        Some(i) => if adapters[i].address@.len() == 0 {
            Err("ADAPTER_NO_ADDRESS"@)
        } else {
            Ok(adapters[i].address@)
        },
    }
}

/// The address to bind to for a saved adapter, among the adapters Windows
/// lists, or why it cannot be used.
pub fn adapter_address(adapters: &[Adapter], name: &str) -> (r: Result<String, String>)
    ensures
        text_result(r) == address_for(adapters@, name@),
{
    let wanted = lowered(&chars_of(name));
    let mut i: usize = 0;
    while i < adapters.len()
        invariant
            i <= adapters.len(),
            wanted@ == lower(name@),
            forall|j: int| 0 <= j < i ==> lower(#[trigger] adapters@[j].name@) != lower(name@),
        decreases adapters.len() - i,
    {
        let candidate = lowered(&chars_of(adapters[i].name.as_str()));
        if same(&candidate, &wanted) {
            proof {
                lemma_find_adapter(adapters@, name@);
                assert(lower(adapters@[i as int].name@) == lower(name@));
                assert(find_adapter(adapters@, name@) == Some(i as int));
            }
            if adapters[i].address.as_str().is_empty() {
                return Err(message("ADAPTER_NO_ADDRESS"));
            }
            return Ok(adapters[i].address.clone());
        }
        i += 1;
    }
    proof {
        lemma_find_adapter(adapters@, name@);
    }
    Err(message("ADAPTER_NOT_FOUND"))
}


/// The IPv4 address written the usual way, `192.168.1.20`.
pub open spec fn dotted(o: [u8; 4]) -> Seq<char> {
    crate::text::decimal(o[0] as nat) + seq!['.'] + crate::text::decimal(o[1] as nat) + seq!['.']
        + crate::text::decimal(o[2] as nat) + seq!['.'] + crate::text::decimal(o[3] as nat)
}

/// An automatic 169.254 address means the adapter never got one.
pub open spec fn automatic(o: [u8; 4]) -> bool {
    o[0] == 169 && o[1] == 254
}

/// The first ordinary IPv4 address among those an adapter holds, best first
/// as Windows lists them; empty when it holds none.
pub open spec fn usable_address_spec(addresses: Seq<[u8; 4]>) -> Seq<char>
    decreases addresses.len(),
{
    if addresses.len() == 0 {
        Seq::empty()
    } else if !automatic(addresses[0]) {
        dotted(addresses[0])
    } else {
        usable_address_spec(addresses.drop_first())
    }
}

pub fn usable_address(addresses: &[[u8; 4]]) -> (r: String)
    ensures
        r@ == usable_address_spec(addresses@),
{
    let mut i: usize = 0;
    assert(addresses@.skip(0) =~= addresses@);
    while i < addresses.len()
        invariant
            i <= addresses.len(),
            usable_address_spec(addresses@.skip(i as int)) == usable_address_spec(addresses@),
        decreases addresses.len() - i,
    {
        let o = addresses[i];
        assert(addresses@.skip(i as int)[0] == o);
        if !(o[0] == 169 && o[1] == 254) {
            let mut v: Vec<char> = Vec::new();
            crate::text::push_decimal(&mut v, o[0] as u64);
            v.push('.');
            crate::text::push_decimal(&mut v, o[1] as u64);
            v.push('.');
            crate::text::push_decimal(&mut v, o[2] as u64);
            v.push('.');
            crate::text::push_decimal(&mut v, o[3] as u64);
            assert(v@ =~= dotted(o));
            return crate::text::string_of(&v);
        }
        assert(addresses@.skip(i as int).drop_first() =~= addresses@.skip(i + 1));
        i += 1;
    }
    assert(addresses@.skip(i as int) =~= Seq::<[u8; 4]>::empty());
    String::new()
}

/// The interface type of the software loopback, which is not offered.
pub const LOOPBACK_TYPE: u32 = 24;
/// The operational status of an adapter that is up.
pub const STATUS_UP: i32 = 1;

/// An adapter as Windows describes it, made into one the person can choose:
/// every adapter except the loopback and those without a name, whether it
/// is connected or not, since a cable can be unplugged while the setting is
/// being made.
pub fn adapter_of(
    if_type: u32,
    name: String,
    label: String,
    addresses: &[[u8; 4]],
    oper_status: i32,
) -> (r: Option<Adapter>)
    ensures
        (if_type == LOOPBACK_TYPE || name@.len() == 0) <==> r is None,
        r matches Some(a) ==> a.name == name && a.label == label && a.address@
            == usable_address_spec(addresses@) && a.up == (oper_status == STATUS_UP),
{
    if if_type == LOOPBACK_TYPE || chars_of(name.as_str()).len() == 0 {
        return None;
    }
    Some(Adapter { name, label, address: usable_address(addresses), up: oper_status == STATUS_UP })
}

} // verus!

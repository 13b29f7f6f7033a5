//! Which video profile a device is watched with.

use vstd::prelude::*;

use crate::ip::{is_lan, is_lan_candidate_ip};
use crate::text::{ascii_lower, ascii_lowercase, opt_str, text_eq};

verus! {

/// A video profile: for a device on the local network, or for one further away.
#[derive(Clone, Copy, Debug, PartialEq, Eq, Structural)]
pub enum Profile {
    Lan,
    Wan,
}

impl Profile {
    /// The profile's name.
    pub open spec fn name(self) -> Seq<char> {
        match self {
            Profile::Lan => "lan"@,
            Profile::Wan => "wan"@,
        }
    }

    /// The port on which a device offers the profile.
    pub open spec fn port(self) -> u16 {
        match self {
            Profile::Lan => 7003,
            Profile::Wan => 7006,
        }
    }
}

/// Whether a client asks for the profile `name`, in capital or small letters.
pub open spec fn asks_for(requested: Option<Seq<char>>, name: Seq<char>) -> bool {
    requested matches Some(r) && r.map_values(|c: char| ascii_lower(c)) == name
}

/// The profile of a device at `ip`: the one that was asked for by name, otherwise the one that fits
/// the address.
pub open spec fn chosen_profile(ip: Seq<char>, requested: Option<Seq<char>>) -> Profile {
    if asks_for(requested, "lan"@) {
        Profile::Lan
    } else if asks_for(requested, "wan"@) {
        Profile::Wan
    } else if is_lan(ip) {
        Profile::Lan
    } else {
        Profile::Wan
    }
}

fn pick_profile(ip: &str, requested: Option<&str>) -> (r: Profile)
    ensures
        r == chosen_profile(ip@, opt_str(requested)),
{
    if let Some(name) = requested {
        let small = ascii_lowercase(name);
        if text_eq(small.as_str(), "lan") {
            return Profile::Lan;
        }
        if text_eq(small.as_str(), "wan") {
            return Profile::Wan;
        }
    }
    if is_lan_candidate_ip(ip) {
        Profile::Lan
    } else {
        Profile::Wan
    }
}

/// The name and the port of the profile that a device at `ip` is watched with.
pub fn select_ios_rtc_profile(ip: &str, requested: Option<&str>) -> (r: (String, u16))
    ensures
        r.0@ == chosen_profile(ip@, opt_str(requested)).name(),
        r.1 == chosen_profile(ip@, opt_str(requested)).port(),
        r.0@ == "lan"@ && r.1 == 7003 || r.0@ == "wan"@ && r.1 == 7006,
{
    match pick_profile(ip, requested) {
        Profile::Lan => ("lan".to_owned(), 7003),
        Profile::Wan => ("wan".to_owned(), 7006),
    }
}

/// A profile that is asked for by name is used wherever the device is.
pub proof fn law_named_profile_is_used(requested: Seq<char>, profile: Profile, ip: Seq<char>)
    requires
        asks_for(Some(requested), profile.name()),
    ensures
        chosen_profile(ip, Some(requested)) == profile,
{
    reveal_strlit("lan");
    reveal_strlit("wan");
    assert("lan"@[0] != "wan"@[0]);
}

/// Without a profile asked for by name, devices on the local network and no others get the local
/// profile.
pub proof fn law_address_decides_otherwise(requested: Option<Seq<char>>, ip: Seq<char>)
    requires
        !asks_for(requested, "lan"@),
        !asks_for(requested, "wan"@),
    ensures
        chosen_profile(ip, requested) == Profile::Lan <==> is_lan(ip),
{
}

/// The name and the port of a profile tell the same profile.
pub proof fn law_name_and_port_agree(a: Profile, b: Profile)
    ensures
        a.name() == b.name() <==> a == b,
        a.port() == b.port() <==> a == b,
{
    reveal_strlit("lan");
    reveal_strlit("wan");
    assert("lan"@[0] != "wan"@[0]);
}

/// A profile is asked for by its name in capital or small letters, each letter for itself, and by nothing
/// else.
pub proof fn law_profile_is_asked_for_by_its_letters(requested: Seq<char>)
    ensures
        asks_for(Some(requested), "lan"@) <==> requested.len() == 3 && (requested[0] == 'l' || requested[0] == 'L')
            && (requested[1] == 'a' || requested[1] == 'A') && (requested[2] == 'n' || requested[2] == 'N'),
        asks_for(Some(requested), "wan"@) <==> requested.len() == 3 && (requested[0] == 'w' || requested[0] == 'W')
            && (requested[1] == 'a' || requested[1] == 'A') && (requested[2] == 'n' || requested[2] == 'N'),
        !asks_for(None, "lan"@),
        !asks_for(None, "wan"@),
{
    reveal_strlit("lan");
    reveal_strlit("wan");
    let small = requested.map_values(|c: char| ascii_lower(c));
    assert(small.len() == requested.len());
    assert("lan"@.len() == 3 && "wan"@.len() == 3);
    assert forall|c: char| #![trigger ascii_lower(c)]
        (ascii_lower(c) == 'l' <==> c == 'l' || c == 'L') && (ascii_lower(c) == 'w' <==> c == 'w' || c == 'W') && (
        ascii_lower(c) == 'a' <==> c == 'a' || c == 'A') && (ascii_lower(c) == 'n' <==> c == 'n' || c == 'N') by {
        if 'A' <= c <= 'Z' {
            assert(ascii_lower(c) as u32 == c as u32 + 32);
        }
    }
    if requested.len() == 3 {
        assert(small[0] == ascii_lower(requested[0]) && small[1] == ascii_lower(requested[1]) && small[2]
            == ascii_lower(requested[2]));
        assert(small =~= "lan"@ <==> small[0] == 'l' && small[1] == 'a' && small[2] == 'n') by {
            assert("lan"@[0] == 'l' && "lan"@[1] == 'a' && "lan"@[2] == 'n');
        }
        assert(small =~= "wan"@ <==> small[0] == 'w' && small[1] == 'a' && small[2] == 'n') by {
            assert("wan"@[0] == 'w' && "wan"@[1] == 'a' && "wan"@[2] == 'n');
        }
    }
}

/// The port of a device is that of the local profile exactly if the profile is asked for by its letters, or
/// if neither profile is and the address is local.
pub proof fn law_port_goes_by_letters_and_address(ip: Seq<char>, requested: Option<Seq<char>>)
    ensures
        ({
            let a = requested matches Some(r) && r.len() == 3 && (r[1] == 'a' || r[1] == 'A') && (r[2] == 'n' || r[2]
                == 'N');
            let lan = a && (requested->0[0] == 'l' || requested->0[0] == 'L');
            let wan = a && (requested->0[0] == 'w' || requested->0[0] == 'W');
            let profile = chosen_profile(ip, requested);
            &&& profile.port() == 7003 <==> lan || !wan && is_lan(ip)
            &&& profile.port() == 7003 || profile.port() == 7006
            &&& profile.port() == 7003 <==> profile.name() == "lan"@
            &&& profile.port() == 7006 <==> profile.name() == "wan"@
        }),
{
    reveal_strlit("lan");
    reveal_strlit("wan");
    assert("lan"@[0] != "wan"@[0]);
    if let Some(r) = requested {
        law_profile_is_asked_for_by_its_letters(r);
    }
}

} // verus!

//! Which network adapter is the cable's: read from what the system lists.

use vstd::prelude::*;

use crate::parse;
use crate::text;

verus! {

/// The number that Windows gives to Ethernet adapters.
pub const IF_TYPE_ETHERNET: u32 = 6;

/// The adapter of the cable.
#[derive(Debug)]
pub struct ThunderboltNic {
    pub name: String,
    pub friendly_name: String,
    /// The number that Windows gives to the adapter, where it is known.
    pub interface_index: Option<u32>,
}

/// What an adapter is called.
pub struct NicView {
    pub name: Seq<char>,
    pub friendly_name: Seq<char>,
    pub interface_index: Option<u32>,
}

impl View for ThunderboltNic {
    type V = NicView;

    open spec fn view(&self) -> NicView {
        NicView {
            name: self.name@,
            friendly_name: self.friendly_name@,
            interface_index: self.interface_index,
        }
    }
}

/// What an optional adapter is called.
pub open spec fn nic_view(n: Option<ThunderboltNic>) -> Option<NicView> {
    match n {
        Some(x) => Some(x@),
        None => None,
    }
}

/// An adapter as Windows describes it.
#[derive(Debug)]
pub struct Adapter {
    pub if_type: u32,
    pub index: u32,
    pub friendly: String,
    pub description: String,
}

/// The description of Intel's driver for networking over Thunderbolt, in
/// letters of either case and with any marks between the words.
pub open spec fn is_link_driver(description: Seq<char>) -> bool {
    let d = text::lower(description);
    text::occurs(d, "intel"@) && text::occurs(d, "thunderbolt"@) && text::occurs(d, "networking"@)
}

/// An adapter with this name and description is the cable's: its name speaks
/// of Thunderbolt, in Latin letters of either case or in Chinese, or its
/// description is that of the driver.
pub open spec fn is_link(name: Seq<char>, description: Seq<char>) -> bool {
    ||| text::occurs(text::lower(name), "thunderbolt"@)
    ||| text::occurs(name, "雷电"@)
    ||| is_link_driver(description)
}

fn is_link_adapter(name: &str, description: &str) -> (r: bool)
    ensures
        r == is_link(name@, description@),
{
    let n: String = text::lower_text(name);
    let d: String = text::lower_text(description);
    text::has_text(n.as_str(), "thunderbolt") || text::has_text(name, "雷电") || (text::has_text(
        d.as_str(),
        "intel",
    ) && text::has_text(d.as_str(), "thunderbolt") && text::has_text(d.as_str(), "networking"))
}

// ----------------------------------------------------------- Windows, natively

/// What the cable's adapter is called: by its friendly name, or by its
/// description where it has none.
pub open spec fn adapter_nic(a: Adapter) -> NicView {
    NicView {
        name: if a.friendly@.len() > 0 {
            a.friendly@
        } else {
            a.description@
        },
        friendly_name: a.friendly@,
        interface_index: Some(a.index),
    }
}

/// The adapter is an Ethernet adapter of the cable.
pub open spec fn is_cable(a: Adapter) -> bool {
    a.if_type == IF_TYPE_ETHERNET && is_link(a.friendly@, a.description@)
}

/// The first adapter that is the cable's.
pub open spec fn first_cable(adapters: Seq<Adapter>) -> Option<NicView>
    decreases adapters.len(),
{
    if adapters.len() == 0 {
        None
    } else if is_cable(adapters[0]) {
        Some(adapter_nic(adapters[0]))
    } else {
        first_cable(adapters.skip(1))
    }
}

/// The first adapter that is the cable's.
pub fn detect_windows_native(adapters: &Vec<Adapter>) -> (r: Option<ThunderboltNic>)
    ensures
        nic_view(r) == first_cable(adapters@),
{
    let mut i: usize = 0;
    assert(adapters@.skip(0) =~= adapters@);
    while i < adapters.len()
        invariant
            i <= adapters@.len(),
            first_cable(adapters@.skip(i as int)) == first_cable(adapters@),
        decreases adapters@.len() - i,
    {
        let a = &adapters[i];
        proof {
            assert(adapters@.skip(i as int)[0] == *a);
            assert(adapters@.skip(i as int).skip(1) =~= adapters@.skip(i + 1));
        }
        if a.if_type == IF_TYPE_ETHERNET && is_link_adapter(
            a.friendly.as_str(),
            a.description.as_str(),
        ) {
            let name: String = if !a.friendly.as_str().is_empty() {
                a.friendly.clone()
            } else {
                a.description.clone()
            };
            return Some(
                ThunderboltNic {
                    name,
                    friendly_name: a.friendly.clone(),
                    interface_index: Some(a.index),
                },
            );
        }
        i = i + 1;
    }
    None
}

// ------------------------------------------------------- Windows, by a listing

/// The name in a line of the listing: what stands before the bar.
pub open spec fn listed_name(line: Seq<char>) -> Seq<char> {
    text::trim(line.take(text::first_of(line, '|') as int))
}

/// The description in a line of the listing: what stands after the bar.
pub open spec fn listed_description(line: Seq<char>) -> Seq<char> {
    text::trim(
        if text::first_of(line, '|') < line.len() {
            line.skip(text::first_of(line, '|') as int + 1)
        } else {
            Seq::empty()
        },
    )
}

/// The first line that describes the cable's adapter.
pub open spec fn first_listed(lines: Seq<Seq<char>>) -> Option<NicView>
    decreases lines.len(),
{
    if lines.len() == 0 {
        None
    } else if is_link(listed_name(lines[0]), listed_description(lines[0])) {
        Some(
            NicView {
                name: listed_name(lines[0]),
                friendly_name: listed_name(lines[0]),
                interface_index: None,
            },
        )
    } else {
        first_listed(lines.skip(1))
    }
}

/// The first adapter that is the cable's in a listing of names and
/// descriptions.
pub fn detect_windows(listing: &str) -> (r: Option<ThunderboltNic>)
    ensures
        nic_view(r) == first_listed(text::lines(listing@)),
{
    let lines: Vec<String> = text::lines_of(listing);
    let ghost all = text::views(lines@);
    let mut i: usize = 0;
    assert(all.skip(0) =~= all);
    while i < lines.len()
        invariant
            i <= lines@.len(),
            all == text::views(lines@),
            all == text::lines(listing@),
            first_listed(all.skip(i as int)) == first_listed(all),
        decreases lines@.len() - i,
    {
        let ghost line = all[i as int];
        let (head, tail) = parse::cut_at(lines[i].as_str(), '|');
        let name: String = text::trim_text(head.as_str());
        let description: String = text::trim_text(tail.as_str());
        proof {
            assert(line == lines@[i as int]@);
            assert(all.skip(i as int)[0] == line);
            assert(all.skip(i as int).skip(1) =~= all.skip(i + 1));
        }
        if is_link_adapter(name.as_str(), description.as_str()) {
            return Some(
                ThunderboltNic {
                    name: name.clone(),
                    friendly_name: name,
                    interface_index: None,
                },
            );
        }
        i = i + 1;
    }
    None
}

/// The number of the first adapter with this friendly name, which is not empty.
pub open spec fn index_of(adapters: Seq<Adapter>, friendly: Seq<char>) -> Option<u32>
    decreases adapters.len(),
{
    if adapters.len() == 0 || friendly.len() == 0 {
        None
    } else if adapters[0].friendly@ == friendly {
        Some(adapters[0].index)
    } else {
        index_of(adapters.skip(1), friendly)
    }
}

/// An adapter from a listing, with the number that it has among `adapters`.
pub fn with_index(nic: ThunderboltNic, adapters: &Vec<Adapter>) -> (r: ThunderboltNic)
    ensures
        r@ == (NicView {
            interface_index: index_of(adapters@, nic.friendly_name@),
            ..nic@
        }),
{
    let mut found: Option<u32> = None;
    let mut i: usize = 0;
    let ghost all = index_of(adapters@, nic.friendly_name@);
    assert(adapters@.skip(0) =~= adapters@);
    while i < adapters.len() && found.is_none() && !nic.friendly_name.as_str().is_empty()
        invariant
            i <= adapters@.len(),
            match found {
                Some(n) => all == Some(n),
                None => all == index_of(adapters@.skip(i as int), nic.friendly_name@),
            },
        decreases adapters@.len() - i,
    {
        proof {
            assert(adapters@.skip(i as int)[0] == adapters@[i as int]);
            assert(adapters@.skip(i as int).skip(1) =~= adapters@.skip(i + 1));
        }
        if text::same_text(adapters[i].friendly.as_str(), nic.friendly_name.as_str()) {
            found = Some(adapters[i].index);
        }
        i = i + 1;
    }
    ThunderboltNic {
        name: nic.name,
        friendly_name: nic.friendly_name,
        interface_index: found,
    }
}

// ------------------------------------------------------------------------ macOS

/// What follows `prefix` in a line, without white space around either.
pub open spec fn field(line: Seq<char>, prefix: Seq<char>) -> Option<Seq<char>> {
    if text::begins(text::trim(line), prefix) {
        Some(text::trim(text::trim(line).skip(prefix.len() as int)))
    } else {
        None
    }
}

/// The hardware port that a block of lines names last.
pub open spec fn block_port(lines: Seq<Seq<char>>) -> Option<Seq<char>>
    decreases lines.len(),
{
    if lines.len() == 0 {
        None
    } else {
        match field(lines.last(), "Hardware Port: "@) {
            Some(v) => Some(v),
            None => block_port(lines.drop_last()),
        }
    }
}

/// The device that a block of lines names last.
pub open spec fn block_device(lines: Seq<Seq<char>>) -> Option<Seq<char>>
    decreases lines.len(),
{
    if lines.len() == 0 {
        None
    } else {
        match (field(lines.last(), "Hardware Port: "@), field(lines.last(), "Device: "@)) {
            (None, Some(v)) => Some(v),
            _ => block_device(lines.drop_last()),
        }
    }
}

/// The adapter of a block, where it is the bridge over the cable.
pub open spec fn block_nic(block: Seq<char>) -> Option<NicView> {
    let lines = text::lines(block);
    match (block_port(lines), block_device(lines)) {
        (Some(port), Some(device)) if text::occurs(port, "Thunderbolt Bridge"@) && device
            == "bridge0"@ => Some(
            NicView { name: device, friendly_name: port, interface_index: None },
        ),
        _ => None,
    }
}

/// The first block whose adapter is the bridge over the cable.
pub open spec fn first_bridge(blocks: Seq<Seq<char>>) -> Option<NicView>
    decreases blocks.len(),
{
    if blocks.len() == 0 {
        None
    } else if block_nic(blocks[0]) is Some {
        block_nic(blocks[0])
    } else {
        first_bridge(blocks.skip(1))
    }
}

fn field_of(line: &str, prefix: &str) -> (r: Option<String>)
    ensures
        text::optional(r) == field(line@, prefix@),
{
    let trimmed: String = text::trim_text(line);
    if text::begins_with(trimmed.as_str(), prefix) {
        let n: usize = text::length_of(prefix);
        let rest: String = text::text_from(trimmed.as_str(), n);
        Some(text::trim_text(rest.as_str()))
    } else {
        None
    }
}

fn nic_of_block(block: &str) -> (r: Option<ThunderboltNic>)
    ensures
        nic_view(r) == block_nic(block@),
{
    let lines: Vec<String> = text::lines_of(block);
    let ghost all = text::views(lines@);
    let mut port: Option<String> = None;
    let mut device: Option<String> = None;
    let mut i: usize = 0;
    assert(all.take(0) =~= Seq::empty());
    while i < lines.len()
        invariant
            i <= lines@.len(),
            all == text::views(lines@),
            text::optional(port) == block_port(all.take(i as int)),
            text::optional(device) == block_device(all.take(i as int)),
        decreases lines@.len() - i,
    {
        proof {
            assert(all.take(i + 1).drop_last() =~= all.take(i as int));
            assert(all.take(i + 1).last() == lines@[i as int]@);
        }
        match field_of(lines[i].as_str(), "Hardware Port: ") {
            Some(v) => {
                port = Some(v);
            },
            None => {
                if let Some(v) = field_of(lines[i].as_str(), "Device: ") {
                    device = Some(v);
                }
            },
        }
        i = i + 1;
    }
    assert(all.take(i as int) =~= all);
    match (port, device) {
        (Some(p), Some(d)) => {
            if text::has_text(p.as_str(), "Thunderbolt Bridge") && text::same_text(
                d.as_str(),
                "bridge0",
            ) {
                Some(ThunderboltNic { name: d, friendly_name: p, interface_index: None })
            } else {
                None
            }
        },
        _ => None,
    }
}

/// The bridge over the cable in a listing of hardware ports, whose blocks are
/// parted by blank lines.
pub fn detect_macos(listing: &str) -> (r: Option<ThunderboltNic>)
    ensures
        nic_view(r) == first_bridge(parse::split(listing@, seq!['\n', '\n'])),
{
    proof {
        reveal_strlit("\n\n");
        assert("\n\n"@ =~= seq!['\n', '\n']);
    }
    let blocks: Vec<String> = parse::split_on(listing, "\n\n");
    let ghost all = text::views(blocks@);
    let mut i: usize = 0;
    assert(all.skip(0) =~= all);
    while i < blocks.len()
        invariant
            i <= blocks@.len(),
            all == text::views(blocks@),
            all == parse::split(listing@, seq!['\n', '\n']),
            first_bridge(all.skip(i as int)) == first_bridge(all),
        decreases blocks@.len() - i,
    {
        proof {
            assert(all.skip(i as int)[0] == blocks@[i as int]@);
            assert(all.skip(i as int).skip(1) =~= all.skip(i + 1));
        }
        let nic = nic_of_block(blocks[i].as_str());
        if nic.is_some() {
            return nic;
        }
        i = i + 1;
    }
    None
}

// ------------------------------------------------------------------------- laws

/// The adapter that is found is one of those that Windows describes, is an
/// Ethernet adapter and the cable's, and none before it is; there is none only
/// if none of them is.
pub proof fn law_first_cable(adapters: Seq<Adapter>)
    ensures
        match first_cable(adapters) {
            Some(n) => exists|i: int|
                #![trigger adapters[i]]
                0 <= i < adapters.len() && is_cable(adapters[i]) && n == adapter_nic(adapters[i])
                    && forall|k: int| 0 <= k < i ==> !is_cable(#[trigger] adapters[k]),
            None => forall|k: int| 0 <= k < adapters.len() ==> !is_cable(#[trigger] adapters[k]),
        },
    decreases adapters.len(),
{
    if adapters.len() > 0 && !is_cable(adapters[0]) {
        let t = adapters.skip(1);
        law_first_cable(t);
        match first_cable(t) {
            Some(n) => {
                let i = choose|i: int|
                    #![trigger t[i]]
                    0 <= i < t.len() && is_cable(t[i]) && n == adapter_nic(t[i]) && forall|k: int|
                        0 <= k < i ==> !is_cable(#[trigger] t[k]);
                assert forall|k: int| 0 <= k < i + 1 implies !is_cable(#[trigger] adapters[k]) by {
                    if k > 0 {
                        assert(adapters[k] == t[k - 1]);
                    }
                }
                assert(adapters[i + 1] == t[i]);
            },
            None => {
                assert forall|k: int| 0 <= k < adapters.len() implies !is_cable(
                    #[trigger] adapters[k],
                ) by {
                    if k > 0 {
                        assert(adapters[k] == t[k - 1]);
                    }
                }
            },
        }
    }
}

/// An adapter is the cable's if its name holds the word for it, in letters of
/// either case or in Chinese, wherever it stands and whatever the description.
pub proof fn law_name_tells_the_cable(
    head: Seq<char>,
    word: Seq<char>,
    tail: Seq<char>,
    description: Seq<char>,
)
    ensures
        text::same_ignoring_case(word, "Thunderbolt"@) ==> is_link(
            head + word + tail,
            description,
        ),
        is_link(head + "雷电"@ + tail, description),
{
    text::law_inner_text_occurs(head, "雷电"@, tail);
    if text::same_ignoring_case(word, "Thunderbolt"@) {
        reveal_strlit("Thunderbolt");
        reveal_strlit("thunderbolt");
        assert(text::lower("Thunderbolt"@) =~= "thunderbolt"@);
        assert(text::lower(head + word + tail) =~= text::lower(head) + text::lower(word)
            + text::lower(tail));
        text::law_inner_text_occurs(text::lower(head), text::lower(word), text::lower(tail));
    }
}

/// An adapter whose name holds neither word is the cable's exactly if its
/// description holds the three words of the driver's name.
pub proof fn law_description_tells_the_cable(name: Seq<char>, description: Seq<char>)
    requires
        !text::occurs(text::lower(name), "thunderbolt"@),
        !text::occurs(name, "雷电"@),
    ensures
        is_link(name, description) <==> text::occurs(text::lower(description), "intel"@)
            && text::occurs(text::lower(description), "thunderbolt"@) && text::occurs(
            text::lower(description),
            "networking"@,
        ),
{
}

/// Only an Ethernet adapter is the cable's. It is called by its friendly name,
/// or by its description where it has none, and keeps its number.
pub proof fn law_cable_is_called_by_its_name(a: Adapter)
    ensures
        is_cable(a) <==> a.if_type == 6 && is_link(a.friendly@, a.description@),
        adapter_nic(a).friendly_name == a.friendly@,
        adapter_nic(a).interface_index == Some(a.index),
        a.friendly@.len() > 0 ==> adapter_nic(a).name == a.friendly@,
        a.friendly@.len() == 0 ==> adapter_nic(a).name == a.description@,
{
}

/// In a line of a listing the name stands before the first bar, and the
/// description behind it, both without white space around them; without a bar
/// there is a name alone.
pub proof fn law_parts_of_a_listed_line(name: Seq<char>, description: Seq<char>)
    requires
        !name.contains('|'),
    ensures
        listed_name(name.push('|') + description) == text::trim(name),
        listed_description(name.push('|') + description) == text::trim(description),
        listed_name(name) == text::trim(name),
        listed_description(name).len() == 0,
{
    let line = name.push('|') + description;
    let n = name.len() as int;
    assert forall|i: int| 0 <= i < n implies #[trigger] name[i] != '|' by {
        assert(name.contains(name[i]));
    }
    assert forall|i: int| 0 <= i < n implies #[trigger] line[i] != '|' by {
        assert(line[i] == name[i]);
    }
    assert(line[n] == '|');
    text::lemma_first_of_is(line, '|', n);
    text::lemma_first_of_is(name, '|', n);
    assert(line.take(n) =~= name);
    assert(line.skip(n + 1) =~= description);
    assert(name.take(n) =~= name);
}

/// The adapter that is found in a listing is that of the first line that
/// describes the cable's; there is none only if no line does.
pub proof fn law_first_listed(lines: Seq<Seq<char>>)
    ensures
        match first_listed(lines) {
            Some(n) => exists|i: int|
                #![trigger lines[i]]
                0 <= i < lines.len() && is_link(listed_name(lines[i]), listed_description(lines[i]))
                    && n.name == listed_name(lines[i]) && n.friendly_name == listed_name(lines[i])
                    && n.interface_index is None && forall|k: int|
                    0 <= k < i ==> !is_link(
                        listed_name(#[trigger] lines[k]),
                        listed_description(lines[k]),
                    ),
            None => forall|k: int|
                0 <= k < lines.len() ==> !is_link(
                    listed_name(#[trigger] lines[k]),
                    listed_description(lines[k]),
                ),
        },
    decreases lines.len(),
{
    if lines.len() > 0 && !is_link(listed_name(lines[0]), listed_description(lines[0])) {
        let t = lines.skip(1);
        law_first_listed(t);
        assert forall|k: int| 1 <= k < lines.len() implies #[trigger] lines[k] == t[k - 1] by {}
        match first_listed(t) {
            Some(n) => {
                let i = choose|i: int|
                    #![trigger t[i]]
                    0 <= i < t.len() && is_link(listed_name(t[i]), listed_description(t[i]))
                        && n.name == listed_name(t[i]) && n.friendly_name == listed_name(t[i])
                        && n.interface_index is None && forall|k: int|
                        0 <= k < i ==> !is_link(
                            listed_name(#[trigger] t[k]),
                            listed_description(t[k]),
                        );
                assert forall|k: int| 0 <= k < i + 1 implies !is_link(
                    listed_name(#[trigger] lines[k]),
                    listed_description(lines[k]),
                ) by {
                    if k > 0 {
                        assert(lines[k] == t[k - 1]);
                    }
                }
                assert(lines[i + 1] == t[i]);
            },
            None => {
                assert forall|k: int| 0 <= k < lines.len() implies !is_link(
                    listed_name(#[trigger] lines[k]),
                    listed_description(lines[k]),
                ) by {
                    if k > 0 {
                        assert(lines[k] == t[k - 1]);
                    }
                }
            },
        }
    }
}

/// The number of an adapter is that of the first with its friendly name; a name
/// that is empty or that none has gives no number.
pub proof fn law_first_adapter_of_a_name(adapters: Seq<Adapter>, friendly: Seq<char>)
    ensures
        match index_of(adapters, friendly) {
            Some(n) => friendly.len() > 0 && exists|i: int|
                #![trigger adapters[i]]
                0 <= i < adapters.len() && adapters[i].friendly@ == friendly && adapters[i].index
                    == n && forall|k: int|
                    0 <= k < i ==> (#[trigger] adapters[k]).friendly@ != friendly,
            None => friendly.len() == 0 || forall|k: int|
                0 <= k < adapters.len() ==> (#[trigger] adapters[k]).friendly@ != friendly,
        },
    decreases adapters.len(),
{
    if adapters.len() > 0 && friendly.len() > 0 {
        if adapters[0].friendly@ != friendly {
            let t = adapters.skip(1);
            law_first_adapter_of_a_name(t, friendly);
            match index_of(t, friendly) {
                Some(n) => {
                    let i = choose|i: int|
                        #![trigger t[i]]
                        0 <= i < t.len() && t[i].friendly@ == friendly && t[i].index == n
                            && forall|k: int|
                            0 <= k < i ==> (#[trigger] t[k]).friendly@ != friendly;
                    assert forall|k: int| 0 <= k < i + 1 implies (#[trigger] adapters[k]).friendly@
                        != friendly by {
                        if k > 0 {
                            assert(adapters[k] == t[k - 1]);
                        }
                    }
                    assert(adapters[i + 1] == t[i]);
                },
                None => {
                    assert forall|k: int| 0 <= k < adapters.len() implies (
                    #[trigger] adapters[k]).friendly@ != friendly by {
                        if k > 0 {
                            assert(adapters[k] == t[k - 1]);
                        }
                    }
                },
            }
        } else {
            assert(adapters[0].index == index_of(adapters, friendly)->0);
        }
    }
}

/// A line gives a value to a field exactly if, without white space around it, it
/// begins with the field's name; the value is what follows, trimmed too.
pub proof fn law_value_of_a_field(line: Seq<char>, prefix: Seq<char>)
    ensures
        field(line, prefix) is Some <==> text::begins(text::trim(line), prefix),
        field(line, prefix) matches Some(v) ==> v == text::trim(
            text::trim(line).skip(prefix.len() as int),
        ),
{
}

/// The port and the device of a block are those of the last line that names
/// them; lines that name neither do not count.
pub proof fn law_block_names_its_port_and_device(lines: Seq<Seq<char>>, line: Seq<char>)
    ensures
        text::begins(text::trim(line), "Hardware Port: "@) ==> block_port(lines.push(line))
            == field(line, "Hardware Port: "@) && block_device(lines.push(line)) == block_device(
            lines,
        ),
        text::begins(text::trim(line), "Device: "@) && !text::begins(
            text::trim(line),
            "Hardware Port: "@,
        ) ==> block_device(lines.push(line)) == field(line, "Device: "@) && block_port(
            lines.push(line),
        ) == block_port(lines),
        !text::begins(text::trim(line), "Device: "@) && !text::begins(
            text::trim(line),
            "Hardware Port: "@,
        ) ==> block_device(lines.push(line)) == block_device(lines) && block_port(lines.push(line))
            == block_port(lines),
        block_port(Seq::<Seq<char>>::empty()) is None,
        block_device(Seq::<Seq<char>>::empty()) is None,
{
    assert(lines.push(line).drop_last() =~= lines);
}

/// A block is the bridge over the cable exactly if its port says so and its
/// device is the first bridge; it is called by both.
pub proof fn law_bridge_is_told_by_port_and_device(block: Seq<char>)
    ensures
        ({
            let port = block_port(text::lines(block));
            let device = block_device(text::lines(block));
            &&& block_nic(block) is Some <==> port is Some && device is Some && text::occurs(
                port->0,
                "Thunderbolt Bridge"@,
            ) && device->0 == "bridge0"@
            &&& block_nic(block) matches Some(n) ==> n.name == "bridge0"@ && n.friendly_name
                == port->0 && n.interface_index is None
        }),
{
}

/// The bridge that is found is that of the first block that is one; there is
/// none only if no block is.
pub proof fn law_first_bridge(blocks: Seq<Seq<char>>)
    ensures
        match first_bridge(blocks) {
            Some(n) => exists|i: int|
                #![trigger blocks[i]]
                0 <= i < blocks.len() && block_nic(blocks[i]) == Some(n) && forall|k: int|
                    0 <= k < i ==> block_nic(#[trigger] blocks[k]) is None,
            None => forall|k: int|
                0 <= k < blocks.len() ==> block_nic(#[trigger] blocks[k]) is None,
        },
    decreases blocks.len(),
{
    if blocks.len() > 0 && block_nic(blocks[0]) is None {
        let t = blocks.skip(1);
        law_first_bridge(t);
        match first_bridge(t) {
            Some(n) => {
                let i = choose|i: int|
                    #![trigger t[i]]
                    0 <= i < t.len() && block_nic(t[i]) == Some(n) && forall|k: int|
                        0 <= k < i ==> block_nic(#[trigger] t[k]) is None;
                assert forall|k: int| 0 <= k < i + 1 implies block_nic(#[trigger] blocks[k])
                    is None by {
                    if k > 0 {
                        assert(blocks[k] == t[k - 1]);
                    }
                }
                assert(blocks[i + 1] == t[i]);
            },
            None => {
                assert forall|k: int| 0 <= k < blocks.len() implies block_nic(#[trigger] blocks[k])
                    is None by {
                    if k > 0 {
                        assert(blocks[k] == t[k - 1]);
                    }
                }
            },
        }
    }
}

/// What is said of an adapter is what it is called and its number.
pub proof fn law_adapter_is_seen_as_it_is(n: ThunderboltNic)
    ensures
        n@.name == n.name@,
        n@.friendly_name == n.friendly_name@,
        n@.interface_index == n.interface_index,
        nic_view(Some(n)) == Some(n@),
        nic_view(None) is None,
{
}

} // verus!

//! Watching input devices for the key that starts and stops a recording.

use vstd::prelude::*;

use crate::text::{begins_with, decimal, decimal_text, lemma_begins_with, starts_with};

verus! {

/// The type of a key event.
pub const EVENT_TYPE_KEY: u16 = 0x01;

/// The value of a key event when the key goes down; it is 0 when the key comes
/// up and 2 while it repeats.
pub const KEY_DOWN: i32 = 1;

/// An input event, as the kernel reports it.
#[derive(Debug, Clone, Copy, PartialEq, Eq, Structural)]
pub struct InputEvent {
    pub event_type: u16,
    pub code: u16,
    pub value: i32,
}

/// Whether an event is a press of the key `key_code`, and no repeat or release.
pub fn is_key_press(event: &InputEvent, key_code: u16) -> (r: bool)
    ensures
        r == (event.event_type == EVENT_TYPE_KEY && event.code == key_code && event.value
            == KEY_DOWN),
        r == (event.event_type == 1 && event.code == key_code && event.value == 1),
{
    event.event_type == EVENT_TYPE_KEY && event.code == key_code && event.value == KEY_DOWN
}

/// An entry of the input directory.
pub struct InputNode {
    /// The entry's file name.
    pub name: String,
    /// Whether the device has the key; nothing where it could not be opened or
    /// names no keys.
    pub has_key: Option<bool>,
}

/// Whether a file name is that of an event device.
pub open spec fn event_name(name: Seq<char>) -> bool {
    begins_with(name, "event"@)
}

/// Whether a file name is that of an event device: only those are opened.
pub fn is_event_node(name: &str) -> (r: bool)
    ensures
        r == event_name(name@),
        r == (name@.len() >= 5 && name@.take(5) == "event"@),
{
    proof {
        reveal_strlit("event");
    }
    starts_with(name, "event")
}

/// Whether a node is an event device that has the key.
pub open spec fn is_key_device(node: InputNode) -> bool {
    event_name(node.name@) && node.has_key == Some(true)
}

/// The indices below `n` of the nodes that are event devices with the key.
pub open spec fn key_device_indices(nodes: Seq<InputNode>, n: int) -> Seq<usize>
    decreases n,
{
    if n <= 0 {
        Seq::empty()
    } else if is_key_device(nodes[n - 1]) {
        key_device_indices(nodes, n - 1).push((n - 1) as usize)
    } else {
        key_device_indices(nodes, n - 1)
    }
}

/// The nodes that are event devices with the key, by index and in order.
pub fn enumerate_key_devices(nodes: &[InputNode]) -> (r: Vec<usize>)
    ensures
        r@ == key_device_indices(nodes@, nodes@.len() as int),
{
    let mut r: Vec<usize> = Vec::new();
    let mut i: usize = 0;
    while i < nodes.len()
        invariant
            i <= nodes@.len(),
            r@ == key_device_indices(nodes@, i as int),
        decreases nodes@.len() - i,
    {
        let node: &InputNode = &nodes[i];
        let has_key: bool = match node.has_key {
            Some(has_key) => has_key,
            None => false,
        };
        if has_key && is_event_node(node.name.as_str()) {
            r.push(i);
        }
        i = i + 1;
    }
    r
}

/// The devices to watch are exactly the event devices with the key, each once
/// and in the order of the directory.
pub proof fn lemma_key_devices(nodes: Seq<InputNode>, n: int)
    requires
        0 <= n <= nodes.len(),
        nodes.len() <= usize::MAX,
    ensures
        forall|i: usize|
            #[trigger] key_device_indices(nodes, n).contains(i) <==> i < n && is_key_device(
                nodes[i as int],
            ),
        forall|a: int, b: int|
            0 <= a < b < key_device_indices(nodes, n).len() ==> key_device_indices(nodes, n)[a]
                < key_device_indices(nodes, n)[b],
    decreases n,
{
    if n > 0 {
        lemma_key_devices(nodes, n - 1);
        let before = key_device_indices(nodes, n - 1);
        let all = key_device_indices(nodes, n);
        assert forall|a: int| 0 <= a < before.len() implies #[trigger] before[a] < n - 1 by {
            assert(before.contains(before[a]));
        }
        if is_key_device(nodes[n - 1]) {
            assert forall|i: usize| #[trigger]
                all.contains(i) <==> i < n && is_key_device(nodes[i as int]) by {
                if all.contains(i) {
                    let k = choose|k: int| 0 <= k < all.len() && all[k] == i;
                    if k < before.len() {
                        assert(before[k] == i);
                        assert(before.contains(i));
                    }
                }
                if i < n - 1 && is_key_device(nodes[i as int]) {
                    assert(before.contains(i));
                    let k = choose|k: int| 0 <= k < before.len() && before[k] == i;
                    assert(all[k] == i);
                }
                if i == n - 1 {
                    assert(all[before.len() as int] == i);
                }
            }
        }
    }
}

/// Why no key can be watched.
#[derive(Debug, Clone, Copy, PartialEq, Eq, Structural)]
pub enum WatchError {
    /// No device has the key with this code.
    NoDevice(u16),
}

impl WatchError {
    /// The error in words.
    pub open spec fn words(self) -> Seq<char> {
        match self {
            WatchError::NoDevice(code) => "no input device found with key "@ + decimal(code as nat)
                + " capability"@,
        }
    }

    /// The error in words.
    pub fn message(&self) -> (r: String)
        ensures
            r@ == self.words(),
    {
        match self {
            WatchError::NoDevice(code) => {
                let mut r: String = "no input device found with key ".into();
                r.append(decimal_text(*code as u32).as_str());
                r.append(" capability");
                r
            },
        }
    }
}

/// The devices to watch for a key, by index; an error where there is none.
pub fn watch_key(nodes: &[InputNode], key_code: u16) -> (r: Result<Vec<usize>, WatchError>)
    ensures
        match r {
            Ok(devices) => devices@.len() > 0 && devices@ == key_device_indices(
                nodes@,
                nodes@.len() as int,
            ),
            Err(e) => key_device_indices(nodes@, nodes@.len() as int).len() == 0 && e
                == WatchError::NoDevice(key_code),
        },
{
    let devices: Vec<usize> = enumerate_key_devices(nodes);
    if devices.is_empty() {
        return Err(WatchError::NoDevice(key_code));
    }
    Ok(devices)
}

/// Event devices are those whose name is `event` with anything behind it: the
/// first five characters decide, and nothing else.
pub proof fn lemma_event_names(name: Seq<char>, rest: Seq<char>)
    ensures
        event_name(seq!['e', 'v', 'e', 'n', 't'] + rest),
        event_name(name) <==> name.len() >= 5 && name[0] == 'e' && name[1] == 'v' && name[2] == 'e'
            && name[3] == 'n' && name[4] == 't',
        event_name(name) ==> name == seq!['e', 'v', 'e', 'n', 't'] + name.skip(5),
{
    reveal_strlit("event");
    let word = seq!['e', 'v', 'e', 'n', 't'];
    assert("event"@ =~= word);
    lemma_begins_with(name, word, rest);
    if name.len() >= 5 && name[0] == 'e' && name[1] == 'v' && name[2] == 'e' && name[3] == 'n'
        && name[4] == 't' {
        assert(name.take(5) =~= word);
    }
    if event_name(name) {
        assert(name.take(5)[0] == name[0] && name.take(5)[1] == name[1] && name.take(5)[2]
            == name[2] && name.take(5)[3] == name[3] && name.take(5)[4] == name[4]);
    }
}

/// A device is watched if and only if it has the key and its name begins with the
/// five letters of `event`; each is watched once, in the order of the directory.
pub proof fn lemma_watched_devices(nodes: Seq<InputNode>)
    requires
        nodes.len() <= usize::MAX,
    ensures
        ({
            let watched = key_device_indices(nodes, nodes.len() as int);
            &&& forall|i: usize| #[trigger]
                watched.contains(i) <==> {
                    &&& i < nodes.len()
                    &&& nodes[i as int].has_key == Some(true)
                    &&& nodes[i as int].name@.len() >= 5
                    &&& nodes[i as int].name@.take(5) == seq!['e', 'v', 'e', 'n', 't']
                }
            &&& forall|a: int, b: int| 0 <= a < b < watched.len() ==> watched[a] < watched[b]
        }),
{
    lemma_key_devices(nodes, nodes.len() as int);
    let watched = key_device_indices(nodes, nodes.len() as int);
    let word = seq!['e', 'v', 'e', 'n', 't'];
    assert forall|i: usize| #[trigger] watched.contains(i) <==> {
        &&& i < nodes.len()
        &&& nodes[i as int].has_key == Some(true)
        &&& nodes[i as int].name@.len() >= 5
        &&& nodes[i as int].name@.take(5) == word
    } by {
        if i < nodes.len() {
            let name = nodes[i as int].name@;
            lemma_event_names(name, Seq::empty());
            if event_name(name) {
                assert(name.take(5) =~= word);
            }
            if name.len() >= 5 && name.take(5) == word {
                assert(name[0] == name.take(5)[0] && name[1] == name.take(5)[1] && name[2]
                    == name.take(5)[2] && name[3] == name.take(5)[3] && name[4]
                    == name.take(5)[4]);
            }
        }
    }
}

/// The message names the key by its code in decimal.
pub proof fn lemma_watch_error_in_words(code: u16)
    ensures
        WatchError::NoDevice(code).words() == "no input device found with key "@ + decimal(
            code as nat,
        ) + " capability"@,
{
}

} // verus!

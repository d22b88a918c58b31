//! Which device to drive.
use vstd::prelude::*;
use crate::text;
use crate::text::{text_opt, texts};

verus! {

/// How adb reaches a device.
///
/// The same phone appears twice, once per transport, whenever `adb tcpip` has been
/// armed and the cable is still plugged in.
#[derive(Debug, Clone, Copy, PartialEq, Eq, Structural)]
pub enum Transport {
    Usb,
    Network,
    Emulator,
}

/// Connection state from the second column of `adb devices`.
#[derive(Debug)]
pub enum State {
    Ready,
    Unauthorized,
    Offline,
    Other(String),
}

/// A device that adb lists.
#[derive(Debug)]
pub struct Device {
    pub serial: String,
    pub state: State,
    pub transport: Transport,
    /// The model, absent when adb ran without `-l`.
    pub model: Option<String>,
    /// The board name. Stable across transports, so it is what tells that two entries
    /// are one phone.
    pub board: Option<String>,
}

/// A connection state.
pub ghost enum StateRow {
    Ready,
    Unauthorized,
    Offline,
    Other(Seq<char>),
}

/// What a device is known by.
pub ghost struct DeviceRow {
    pub serial: Seq<char>,
    pub state: StateRow,
    pub transport: Transport,
    pub model: Option<Seq<char>>,
    pub board: Option<Seq<char>>,
}

/// The word for a transport.
pub open spec fn transport_word(t: Transport) -> Seq<char> {
    match t {
        Transport::Usb => "usb"@,
        Transport::Network => "network"@,
        Transport::Emulator => "emulator"@,
    }
}

impl Transport {
    /// The transport in a word.
    pub fn to_text(&self) -> (r: String)
        ensures
            r@ == transport_word(*self),
    {
        match self {
            Transport::Usb => "usb".to_owned(),
            Transport::Network => "network".to_owned(),
            Transport::Emulator => "emulator".to_owned(),
        }
    }
}

/// The words for a state.
pub open spec fn state_words(s: StateRow) -> Seq<char> {
    match s {
        StateRow::Ready => "ready"@,
        StateRow::Unauthorized => "unauthorized, accept the prompt on the device"@,
        StateRow::Offline => "offline"@,
        StateRow::Other(raw) => raw,
    }
}

impl State {
    pub open spec fn row(self) -> StateRow {
        match self {
            State::Ready => StateRow::Ready,
            State::Unauthorized => StateRow::Unauthorized,
            State::Offline => StateRow::Offline,
            State::Other(raw) => StateRow::Other(raw@),
        }
    }

    /// The state in words.
    pub fn to_text(&self) -> (r: String)
        ensures
            r@ == state_words(self.row()),
    {
        match self {
            State::Ready => "ready".to_owned(),
            State::Unauthorized => "unauthorized, accept the prompt on the device".to_owned(),
            State::Offline => "offline".to_owned(),
            State::Other(raw) => raw.clone(),
        }
    }

    fn copied(&self) -> (r: Self)
        ensures
            r.row() == self.row(),
    {
        match self {
            State::Ready => State::Ready,
            State::Unauthorized => State::Unauthorized,
            State::Offline => State::Offline,
            State::Other(raw) => State::Other(raw.clone()),
        }
    }
}

/// One line for a device.
pub open spec fn label_of(d: DeviceRow) -> Seq<char> {
    d.serial + "  "@ + (match d.model {
        Some(m) => m,
        None => "unknown"@,
    }) + "  ["@ + transport_word(d.transport) + ", "@ + state_words(d.state) + "]"@
}

fn copy_text(s: &Option<String>) -> (r: Option<String>)
    ensures
        text_opt(r) == text_opt(*s),
{
    match s {
        Some(t) => Some(t.clone()),
        None => None,
    }
}

impl Device {
    pub open spec fn row(self) -> DeviceRow {
        DeviceRow {
            serial: self.serial@,
            state: self.state.row(),
            transport: self.transport,
            model: text_opt(self.model),
            board: text_opt(self.board),
        }
    }

    /// One line for the device.
    pub fn label(&self) -> (r: String)
        ensures
            r@ == label_of(self.row()),
    {
        let mut out: String = self.serial.clone();
        out.append("  ");
        match &self.model {
            Some(m) => {
                out.append(m.as_str());
            },
            None => {
                out.append("unknown");
            },
        }
        out.append("  [");
        let transport = self.transport.to_text();
        out.append(transport.as_str());
        out.append(", ");
        let state = self.state.to_text();
        out.append(state.as_str());
        out.append("]");
        out
    }

    /// Whether the device can be driven.
    pub fn is_ready(&self) -> (r: bool)
        ensures
            r == (self.row().state is Ready),
    {
        match self.state {
            State::Ready => true,
            _ => false,
        }
    }

    /// Whether the device is an emulator.
    pub fn is_emulator(&self) -> (r: bool)
        ensures
            r == (self.row().transport is Emulator),
    {
        match self.transport {
            Transport::Emulator => true,
            _ => false,
        }
    }

    /// Another of the same.
    pub fn copied(&self) -> (r: Self)
        ensures
            r.row() == self.row(),
    {
        Device {
            serial: self.serial.clone(),
            state: self.state.copied(),
            transport: self.transport,
            model: copy_text(&self.model),
            board: copy_text(&self.board),
        }
    }
}

/// The state that a column writes.
pub open spec fn state_in(raw: Seq<char>) -> StateRow {
    if raw == "device"@ {
        StateRow::Ready
    } else if raw == "unauthorized"@ {
        StateRow::Unauthorized
    } else if raw == "offline"@ {
        StateRow::Offline
    } else {
        StateRow::Other(raw)
    }
}

fn parse_state(raw: &str) -> (r: State)
    ensures
        r.row() == state_in(raw@),
{
    if text::same(raw, "device") {
        State::Ready
    } else if text::same(raw, "unauthorized") {
        State::Unauthorized
    } else if text::same(raw, "offline") {
        State::Offline
    } else {
        State::Other(raw.to_owned())
    }
}

/// The serial is a host and a port.
pub open spec fn names_port(serial: Seq<char>) -> bool {
    match text::cut_last(serial, ':') {
        Some((host, port)) => host.len() > 0 && text::unsigned_value(port, u16::MAX as int) is Some,
        None => false,
    }
}

/// How a device with a serial is reached.
pub open spec fn transport_of(serial: Seq<char>) -> Transport {
    if "emulator-"@.is_prefix_of(serial) {
        Transport::Emulator
    } else if names_port(serial) {
        Transport::Network
    } else {
        Transport::Usb
    }
}

/// Wireless serials are `host:port`. Nothing else adb reports carries a numeric suffix
/// after a colon, so this is enough to tell the transports apart.
fn is_host_port(serial: &str) -> (r: bool)
    ensures
        r == names_port(serial@),
{
    match text::rsplit_once(serial, ':') {
        Some((host, port)) => !host.as_str().is_empty() && text::is_u16(&port),
        None => false,
    }
}

/// How a device is reached, from the shape of its serial.
pub fn transport_for(serial: &str) -> (r: Transport)
    ensures
        r == transport_of(serial@),
{
    if text::starts_with(serial, "emulator-") {
        Transport::Emulator
    } else if is_host_port(serial) {
        Transport::Network
    } else {
        Transport::Usb
    }
}

/// The last value of a field among the columns behind the first two.
pub open spec fn field_of(columns: Seq<Seq<char>>, name: Seq<char>) -> Option<Seq<char>>
    decreases columns.len(),
{
    if columns.len() <= 2 {
        None
    } else {
        match text::cut_first(columns.last(), ':') {
            Some((key, value)) => if key == name {
                Some(value)
            } else {
                field_of(columns.drop_last(), name)
            },
            None => field_of(columns.drop_last(), name),
        }
    }
}

/// The device that a line lists.
pub open spec fn device_in(line: Seq<char>) -> Option<DeviceRow> {
    let columns = text::words(line);
    if columns.len() < 2 {
        None
    } else {
        Some(
            DeviceRow {
                serial: columns[0],
                state: state_in(columns[1]),
                transport: transport_of(columns[0]),
                model: field_of(columns, "model"@),
                board: field_of(columns, "device"@),
            },
        )
    }
}

fn parse_line(line: &str) -> (r: Option<Device>)
    ensures
        match r {
            Some(d) => device_in(line@) == Some(d.row()),
            None => device_in(line@) is None,
        },
{
    let columns = text::split_words(line);
    let ghost all = text::words(line@);
    assert(columns@.len() == all.len());
    if columns.len() < 2 {
        return None;
    }
    let mut model: Option<String> = None;
    let mut board: Option<String> = None;
    for i in 2..columns.len()
        invariant
            texts(columns@) == all,
            columns@.len() >= 2,
            text_opt(model) == field_of(all.take(i as int), "model"@),
            text_opt(board) == field_of(all.take(i as int), "device"@),
    {
        assert(all.take(i + 1).drop_last() =~= all.take(i as int));
        assert(columns@[i as int]@ == all[i as int]);
        if let Some((key, value)) = text::split_once(&columns[i], ':') {
            proof {
                reveal_strlit("model");
                reveal_strlit("device");
                assert("model"@.len() != "device"@.len());
            }
            if text::same(&key, "model") {
                model = Some(value);
            } else if text::same(&key, "device") {
                board = Some(value);
            }
        }
    }
    assert(all.take(all.len() as int) =~= all);
    assert(columns@[0]@ == all[0]);
    assert(columns@[1]@ == all[1]);
    let state = parse_state(&columns[1]);
    let transport = transport_for(&columns[0]);
    Some(Device { serial: columns[0].clone(), state, transport, model, board })
}

/// A line of the table, as opposed to its head or to what the daemon says of itself.
pub open spec fn is_entry(line: Seq<char>) -> bool {
    &&& line.len() > 0
    &&& !"List of devices"@.is_prefix_of(line)
    &&& line[0] != '*'
}

/// The devices that lines list.
pub open spec fn devices_in(lines: Seq<Seq<char>>) -> Seq<DeviceRow>
    decreases lines.len(),
{
    if lines.len() == 0 {
        Seq::empty()
    } else {
        let before = devices_in(lines.drop_last());
        let line = text::trimmed(lines.last());
        match device_in(line) {
            Some(d) => if is_entry(line) {
                before.push(d)
            } else {
                before
            },
            None => before,
        }
    }
}

/// What the devices of a list are known by.
pub open spec fn rows(v: Seq<Device>) -> Seq<DeviceRow> {
    v.map_values(|d: Device| d.row())
}

/// The devices that `adb devices -l` lists. Lines that list none are skipped rather
/// than failing the whole listing, since adb interleaves daemon startup chatter with
/// the table.
pub fn parse_devices(output: &str) -> (r: Vec<Device>)
    ensures
        rows(r@) == devices_in(text::lines(output@)),
{
    let lines = text::split_lines(output);
    let ghost all = text::lines(output@);
    let mut out: Vec<Device> = Vec::new();
    assert(rows(out@) =~= Seq::<DeviceRow>::empty());
    for i in 0..lines.len()
        invariant
            texts(lines@) == all,
            rows(out@) == devices_in(all.take(i as int)),
    {
        assert(all.take(i + 1).drop_last() =~= all.take(i as int));
        assert(lines@[i as int]@ == all[i as int]);
        let line = text::trim(&lines[i]);
        let ghost before = rows(out@);
        proof {
            reveal_strlit("*");
        }
        if !line.as_str().is_empty() && !text::starts_with(&line, "List of devices")
            && !text::starts_with(&line, "*") {
            assert(line@[0] != '*') by {
                if line@[0] == '*' {
                    assert("*"@ =~= line@.subrange(0, 1));
                }
            }
            if let Some(d) = parse_line(&line) {
                let ghost row = d.row();
                out.push(d);
                assert(rows(out@) =~= before.push(row));
            }
        } else {
            assert(!is_entry(line@)) by {
                if "*"@.is_prefix_of(line@) {
                    assert(line@.subrange(0, 1)[0] == '*');
                }
            }
        }
    }
    assert(all.take(all.len() as int) =~= all);
    out
}

/// A device that is ready and no emulator.
pub open spec fn usable() -> spec_fn(Device) -> bool {
    |d: Device| d.row().state is Ready && !(d.row().transport is Emulator)
}

/// A device is on the cable and is known to have a board.
pub open spec fn cabled_twin(d: Device, board: Option<Seq<char>>) -> bool {
    d.row().transport is Usb && d.row().board is Some && d.row().board == board
}

/// A device is not just the wireless entry of one that is also on the cable.
pub open spec fn preferred(all: Seq<Device>) -> spec_fn(Device) -> bool {
    |d: Device|
        !(d.row().transport is Network) || !exists|i: int|
            0 <= i < all.len() && #[trigger] cabled_twin(all[i], d.row().board)
}

/// The devices that can be meant where none is named.
pub open spec fn candidates(devices: Seq<Device>) -> Seq<Device> {
    let ready = devices.filter(usable());
    ready.filter(preferred(ready))
}

/// The serials of devices.
pub open spec fn serials(devices: Seq<Device>) -> Seq<Seq<char>> {
    devices.map_values(|d: Device| d.serial@)
}

/// The labels of devices.
pub open spec fn labels(devices: Seq<Device>) -> Seq<Seq<char>> {
    devices.map_values(|d: Device| label_of(d.row()))
}

/// Whatever is plugged in but cannot be driven, and why.
pub open spec fn blocked(devices: Seq<Device>) -> Seq<Seq<char>>
    decreases devices.len(),
{
    if devices.len() == 0 {
        Seq::empty()
    } else {
        let before = blocked(devices.drop_last());
        let d = devices.last().row();
        if !(d.transport is Emulator) && !(d.state is Ready) {
            before.push(d.serial + " ("@ + state_words(d.state) + ")"@)
        } else {
            before
        }
    }
}

/// How many of the devices are emulators.
pub open spec fn emulators(devices: Seq<Device>) -> nat
    decreases devices.len(),
{
    if devices.len() == 0 {
        0
    } else {
        emulators(devices.drop_last()) + if devices.last().row().transport is Emulator {
            1nat
        } else {
            0
        }
    }
}

/// Why no device can be driven.
pub open spec fn why_nothing(devices: Seq<Device>) -> Seq<char> {
    if blocked(devices).len() > 0 {
        "no usable device: "@ + text::joined(blocked(devices), ", "@)
    } else if emulators(devices) > 0 {
        "no physical device connected, ignoring "@ + text::decimal(emulators(devices))
            + " emulator(s); pass --device to target one"@
    } else {
        "no device connected"@
    }
}

/// The first device with a serial.
pub open spec fn with_serial(devices: Seq<Device>, serial: Seq<char>) -> Option<Device>
    decreases devices.len(),
{
    if devices.len() == 0 {
        None
    } else {
        match with_serial(devices.drop_last(), serial) {
            Some(d) => Some(d),
            None => if devices.last().serial@ == serial {
                Some(devices.last())
            } else {
                None
            },
        }
    }
}

proof fn lemma_with_serial_prefix(devices: Seq<Device>, serial: Seq<char>, n: int)
    requires
        0 <= n <= devices.len(),
        with_serial(devices.take(n), serial) is Some,
    ensures
        with_serial(devices, serial) == with_serial(devices.take(n), serial),
    decreases devices.len() - n,
{
    if n == devices.len() {
        assert(devices.take(n) =~= devices);
    } else {
        assert(devices.take(n + 1).drop_last() =~= devices.take(n));
        lemma_with_serial_prefix(devices, serial, n + 1);
    }
}

/// Why a named device is not the one to drive, where it is not.
pub open spec fn exact_refusal(devices: Seq<Device>, serial: Seq<char>) -> Option<Seq<char>> {
    match with_serial(devices, serial) {
        None => {
            let known = text::joined(serials(devices), ", "@);
            Some(
                if known.len() == 0 {
                    "no device "@ + text::quoted(serial) + ", and adb sees nothing connected"@
                } else {
                    "no device "@ + text::quoted(serial) + ", adb sees: "@ + known
                },
            )
        },
        Some(d) => if d.row().state is Ready {
            None
        } else {
            Some("device "@ + serial + " is "@ + state_words(d.row().state))
        },
    }
}

/// The device that is picked, or why none is.
pub open spec fn picked(devices: Seq<Device>, wanted: Option<Seq<char>>) -> Result<
    Device,
    Seq<char>,
> {
    match wanted {
        Some(serial) => match exact_refusal(devices, serial) {
            Some(why) => Err(why),
            None => Ok(with_serial(devices, serial)->0),
        },
        None => {
            let found = candidates(devices);
            if found.len() == 0 {
                Err(why_nothing(devices))
            } else if found.len() == 1 {
                Ok(found[0])
            } else {
                Err(
                    "more than one device connected, pass --device:\n  "@ + text::joined(
                        labels(found),
                        "\n  "@,
                    ),
                )
            }
        },
    }
}

/// A result with its error as characters.
pub open spec fn outcome(r: Result<&Device, String>) -> Result<Device, Seq<char>> {
    match r {
        Ok(d) => Ok(*d),
        Err(e) => Err(e@),
    }
}

fn ready_ones<'a>(devices: &'a [Device]) -> (r: Vec<&'a Device>)
    ensures
        r@.unref() == devices@.filter(usable()),
{
    let mut out: Vec<&Device> = Vec::new();
    proof {
        reveal(Seq::filter);
    }
    assert(out@.unref() =~= devices@.take(0).filter(usable()));
    for i in 0..devices.len()
        invariant
            out@.unref() == devices@.take(i as int).filter(usable()),
    {
        let d = &devices[i];
        let ghost before = out@.unref();
        proof {
            let upto = devices@.take(i as int);
            assert(devices@.take(i + 1) =~= upto.push(*d));
            upto.lemma_filter_push(*d, usable());
        }
        if d.is_ready() && !d.is_emulator() {
            out.push(d);
            assert(out@.unref() =~= before.push(*d));
        }
    }
    assert(devices@.take(devices@.len() as int) =~= devices@);
    out
}

fn same_text(a: &Option<String>, b: &Option<String>) -> (r: bool)
    ensures
        r == (text_opt(*a) == text_opt(*b)),
{
    match (a, b) {
        (Some(x), Some(y)) => text::same(x, y),
        (None, None) => true,
        _ => false,
    }
}

fn has_twin(devices: &Vec<&Device>, board: &Option<String>) -> (r: bool)
    ensures
        r == exists|i: int|
            0 <= i < devices@.len() && #[trigger] cabled_twin(
                devices@.unref()[i],
                text_opt(*board),
            ),
{
    for i in 0..devices.len()
        invariant
            forall|j: int|
                0 <= j < i ==> !#[trigger] cabled_twin(devices@.unref()[j], text_opt(*board)),
    {
        let d = devices[i];
        assert(devices@.unref()[i as int] == *d);
        let on_cable: bool = match d.transport {
            Transport::Usb => true,
            _ => false,
        };
        let has_board: bool = match &d.board {
            Some(_) => true,
            None => false,
        };
        if on_cable && has_board && same_text(&d.board, board) {
            assert(cabled_twin(devices@.unref()[i as int], text_opt(*board)));
            return true;
        }
    }
    false
}

/// Drops the network entry when the same board is also cabled.
fn prefer_cabled<'a>(devices: &Vec<&'a Device>) -> (r: Vec<&'a Device>)
    ensures
        r@.unref() == devices@.unref().filter(preferred(devices@.unref())),
{
    let ghost all = devices@.unref();
    let ghost keep = preferred(all);
    let mut out: Vec<&Device> = Vec::new();
    proof {
        reveal(Seq::filter);
    }
    assert(out@.unref() =~= all.take(0).filter(keep));
    for i in 0..devices.len()
        invariant
            all == devices@.unref(),
            keep == preferred(all),
            out@.unref() == all.take(i as int).filter(keep),
    {
        let d = devices[i];
        let ghost before = out@.unref();
        proof {
            assert(all[i as int] == *d);
            let upto = all.take(i as int);
            assert(all.take(i + 1) =~= upto.push(*d));
            upto.lemma_filter_push(*d, keep);
        }
        let wireless: bool = match d.transport {
            Transport::Network => true,
            _ => false,
        };
        let twin = has_twin(devices, &d.board);
        if !wireless || !twin {
            out.push(d);
            assert(out@.unref() =~= before.push(*d));
        }
    }
    assert(all.take(all.len() as int) =~= all);
    out
}

/// Why no device can be driven, in terms of what adb actually saw: "no device" alone
/// points at the cable when the real cause is usually an unaccepted debugging prompt.
fn nothing_usable(devices: &[Device]) -> (r: String)
    ensures
        r@ == why_nothing(devices@),
{
    broadcast use text::lemma_texts_push;

    let mut stuck: Vec<String> = Vec::new();
    let mut count: u64 = 0;
    assert(texts(stuck@) =~= Seq::<Seq<char>>::empty());
    for i in 0..devices.len()
        invariant
            texts(stuck@) == blocked(devices@.take(i as int)),
            count == emulators(devices@.take(i as int)),
            count <= i,
    {
        broadcast use text::lemma_texts_push;

        assert(devices@.take(i + 1).drop_last() =~= devices@.take(i as int));
        let d = &devices[i];
        let emulator = d.is_emulator();
        let ready = d.is_ready();
        if emulator {
            count = count + 1;
        } else if !ready {
            let mut line: String = d.serial.clone();
            line.append(" (");
            let state = d.state.to_text();
            line.append(state.as_str());
            line.append(")");
            stuck.push(line);
        }
    }
    assert(devices@.take(devices@.len() as int) =~= devices@);
    assert(texts(stuck@).len() == stuck@.len());
    if stuck.len() > 0 {
        let mut out: String = "no usable device: ".to_owned();
        let list = text::join(&stuck, ", ");
        out.append(list.as_str());
        return out;
    }
    if count > 0 {
        let mut out: String = "no physical device connected, ignoring ".to_owned();
        let n = text::dec(count);
        out.append(n.as_str());
        out.append(" emulator(s); pass --device to target one");
        return out;
    }
    "no device connected".to_owned()
}

fn resolve_exact<'a>(devices: &'a [Device], serial: &str) -> (r: Result<&'a Device, String>)
    ensures
        outcome(r) == picked(devices@, Some(serial@)),
{
    broadcast use text::lemma_texts_push;

    for i in 0..devices.len()
        invariant
            with_serial(devices@.take(i as int), serial@) is None,
    {
        assert(devices@.take(i + 1).drop_last() =~= devices@.take(i as int));
        let d = &devices[i];
        if text::same(&d.serial, serial) {
            proof {
                lemma_with_serial_prefix(devices@, serial@, i + 1);
            }
            if d.is_ready() {
                return Ok(d);
            }
            let mut out: String = "device ".to_owned();
            out.append(serial);
            out.append(" is ");
            let state = d.state.to_text();
            out.append(state.as_str());
            return Err(out);
        }
    }
    assert(devices@.take(devices@.len() as int) =~= devices@);
    let mut known: Vec<String> = Vec::new();
    assert(texts(known@) =~= serials(devices@).take(0));
    for i in 0..devices.len()
        invariant
            texts(known@) == serials(devices@).take(i as int),
    {
        broadcast use text::lemma_texts_push;

        known.push(devices[i].serial.clone());
        assert(serials(devices@).take(i + 1) =~= serials(devices@).take(i as int).push(
            devices@[i as int].serial@,
        ));
    }
    assert(serials(devices@).take(devices@.len() as int) =~= serials(devices@));
    let list = text::join(&known, ", ");
    let mut out: String = "no device ".to_owned();
    let name = text::quote(serial);
    out.append(name.as_str());
    if list.as_str().is_empty() {
        out.append(", and adb sees nothing connected");
    } else {
        out.append(", adb sees: ");
        out.append(list.as_str());
    }
    Err(out)
}

/// The serial that is asked for.
pub open spec fn wanted_text(wanted: Option<&str>) -> Option<Seq<char>> {
    match wanted {
        Some(s) => Some(s@),
        None => None,
    }
}

/// The device to drive.
///
/// Physical hardware beats emulators, which are usually running alongside and are never
/// what is meant. When one phone is reachable on both transports the cabled entry wins,
/// keeping traffic on the faster and steadier link.
pub fn resolve<'a>(devices: &'a [Device], wanted: Option<&str>) -> (r: Result<&'a Device, String>)
    ensures
        outcome(r) == picked(devices@, wanted_text(wanted)),
{
    broadcast use text::lemma_texts_push;

    if let Some(serial) = wanted {
        return resolve_exact(devices, serial);
    }
    let ready = ready_ones(devices);
    let found = prefer_cabled(&ready);
    let ghost picks = candidates(devices@);
    assert(found@.unref() == picks);
    assert(found@.len() == picks.len());
    if found.len() == 0 {
        return Err(nothing_usable(devices));
    }
    if found.len() == 1 {
        assert(*found@[0] == picks[0]);
        return Ok(found[0]);
    }
    let mut lines: Vec<String> = Vec::new();
    assert(texts(lines@) =~= labels(picks).take(0));
    for i in 0..found.len()
        invariant
            found@.unref() == picks,
            texts(lines@) == labels(picks).take(i as int),
    {
        broadcast use text::lemma_texts_push;

        assert(*found@[i as int] == picks[i as int]);
        lines.push(found[i].label());
        assert(labels(picks).take(i + 1) =~= labels(picks).take(i as int).push(
            label_of(picks[i as int].row()),
        ));
    }
    assert(labels(picks).take(picks.len() as int) =~= labels(picks));
    let list = text::join(&lines, "\n  ");
    let mut out: String = "more than one device connected, pass --device:\n  ".to_owned();
    out.append(list.as_str());
    Err(out)
}

proof fn lemma_with_serial_is_member(devices: Seq<Device>, serial: Seq<char>)
    ensures
        with_serial(devices, serial) matches Some(d) ==> d.serial@ == serial && devices.contains(d),
    decreases devices.len(),
{
    if devices.len() > 0 {
        lemma_with_serial_is_member(devices.drop_last(), serial);
        if let Some(d) = with_serial(devices, serial) {
            if with_serial(devices.drop_last(), serial) is Some {
                let i = choose|i: int|
                    0 <= i < devices.drop_last().len() && devices.drop_last()[i] == d;
                assert(devices[i] == d);
            } else {
                assert(devices[devices.len() - 1] == d);
            }
        }
    }
}

/// Whatever is picked is one of the devices and ready, and is an emulator only where it
/// was named.
pub proof fn law_only_a_ready_device_is_picked(devices: Seq<Device>, wanted: Option<Seq<char>>)
    ensures
        picked(devices, wanted) matches Ok(d) ==> {
            &&& devices.contains(d)
            &&& d.row().state is Ready
            &&& d.row().transport is Emulator ==> wanted == Some(d.serial@)
            &&& wanted matches Some(serial) ==> d.serial@ == serial
        },
{
    match wanted {
        Some(serial) => {
            lemma_with_serial_is_member(devices, serial);
        },
        None => {
            let ready = devices.filter(usable());
            let found = candidates(devices);
            if found.len() == 1 {
                broadcast use vstd::seq_lib::group_filter_ensures;

                assert(found.contains(found[0]));
                ready.lemma_filter_contains_rev(preferred(ready), found[0]);
                assert(ready.contains(found[0]));
                devices.lemma_filter_contains_rev(usable(), found[0]);
                assert(devices.contains(found[0]));
            }
        },
    }
}

/// One phone that is cabled and also reached over the network is picked on its cable.
pub proof fn law_the_cable_wins(wired: Device, wireless: Device)
    requires
        wired.row().state is Ready,
        wireless.row().state is Ready,
        wired.row().transport is Usb,
        wireless.row().transport is Network,
        wired.row().board is Some,
        wired.row().board == wireless.row().board,
    ensures
        picked(seq![wired, wireless], None) == Ok::<Device, Seq<char>>(wired),
        picked(seq![wireless, wired], None) == Ok::<Device, Seq<char>>(wired),
{
    lemma_pair_filtered(wired, wireless, wired, wireless);
    lemma_pair_filtered(wireless, wired, wired, wireless);
}

proof fn lemma_pair_filtered(a: Device, b: Device, wired: Device, wireless: Device)
    requires
        wired.row().state is Ready,
        wireless.row().state is Ready,
        wired.row().transport is Usb,
        wireless.row().transport is Network,
        wired.row().board is Some,
        wired.row().board == wireless.row().board,
        (a == wired && b == wireless) || (a == wireless && b == wired),
    ensures
        candidates(seq![a, b]) == seq![wired],
{
    reveal(Seq::filter);
    let both = seq![a, b];
    let none = Seq::<Device>::empty();
    assert(both.drop_last() =~= seq![a]);
    assert(both.drop_last().drop_last() =~= none);
    assert(none.filter(usable()) =~= none);
    none.lemma_filter_push(a, usable());
    assert(none.push(a) =~= seq![a]);
    seq![a].lemma_filter_push(b, usable());
    assert(seq![a].push(b) =~= both);
    assert(both.filter(usable()) =~= both);
    let keep = preferred(both);
    assert(none.filter(keep) =~= none);
    none.lemma_filter_push(a, keep);
    seq![a].lemma_filter_push(b, keep);
    assert(!keep(wireless)) by {
        let at = if a == wired {
            0int
        } else {
            1int
        };
        assert(cabled_twin(both[at], wireless.row().board));
    }
    assert(keep(wired));
    assert(both.filter(keep) =~= seq![wired]);
}

/// A filter keeps what passes, and nothing else.
proof fn lemma_kept_where(devices: Seq<Device>, p: spec_fn(Device) -> bool, k: int)
    requires
        0 <= k < devices.len(),
        forall|j: int| 0 <= j < devices.len() && j != k ==> !p(#[trigger] devices[j]),
    ensures
        devices.filter(p) == (if p(devices[k]) {
            seq![devices[k]]
        } else {
            Seq::<Device>::empty()
        }),
    decreases devices.len(),
{
    reveal(Seq::filter);
    let rest = devices.drop_last();
    if k == rest.len() {
        lemma_none_kept(rest, p);
    } else {
        lemma_kept_where(rest, p, k);
        assert(rest[k] == devices[k]);
        assert(!p(devices[devices.len() - 1]));
    }
}

proof fn lemma_none_kept(devices: Seq<Device>, p: spec_fn(Device) -> bool)
    requires
        forall|j: int| 0 <= j < devices.len() ==> !p(#[trigger] devices[j]),
    ensures
        devices.filter(p) == Seq::<Device>::empty(),
    decreases devices.len(),
{
    reveal(Seq::filter);
    if devices.len() > 0 {
        lemma_none_kept(devices.drop_last(), p);
        assert(!p(devices[devices.len() - 1]));
    }
}

/// Two that pass are both kept, the earlier before the later.
proof fn lemma_two_kept(devices: Seq<Device>, p: spec_fn(Device) -> bool, i: int, j: int)
    requires
        0 <= i < j < devices.len(),
        p(devices[i]),
        p(devices[j]),
    ensures
        devices.filter(p).len() >= 2,
    decreases devices.len(),
{
    reveal(Seq::filter);
    let rest = devices.drop_last();
    if j < rest.len() {
        lemma_two_kept(rest, p, i, j);
    } else {
        lemma_one_kept(rest, p, i);
    }
}

proof fn lemma_one_kept(devices: Seq<Device>, p: spec_fn(Device) -> bool, i: int)
    requires
        0 <= i < devices.len(),
        p(devices[i]),
    ensures
        devices.filter(p).len() >= 1,
    decreases devices.len(),
{
    reveal(Seq::filter);
    let rest = devices.drop_last();
    if i < rest.len() {
        lemma_one_kept(rest, p, i);
    }
}

/// The two filters of the candidates are one over the whole list.
proof fn lemma_candidates_at_once(devices: Seq<Device>)
    ensures
        candidates(devices) == devices.filter(
            |d: Device| usable()(d) && preferred(devices.filter(usable()))(d),
        ),
{
    let ready = devices.filter(usable());
    let keep = preferred(ready);
    lemma_filter_twice(devices, usable(), keep);
}

proof fn lemma_filter_twice(
    devices: Seq<Device>,
    p: spec_fn(Device) -> bool,
    q: spec_fn(Device) -> bool,
)
    ensures
        devices.filter(p).filter(q) == devices.filter(|d: Device| p(d) && q(d)),
    decreases devices.len(),
{
    reveal(Seq::filter);
    if devices.len() > 0 {
        let rest = devices.drop_last();
        lemma_filter_twice(rest, p, q);
        if p(devices.last()) {
            rest.filter(p).lemma_filter_push(devices.last(), q);
        }
    }
}

/// A ready device that is no emulator is left out of those that can be meant only where it
/// is reached over the network and a ready one on the cable is known by the same board.
proof fn lemma_meant(devices: Seq<Device>, k: int)
    requires
        0 <= k < devices.len(),
    ensures
        (usable()(devices[k]) && preferred(devices.filter(usable()))(devices[k])) == {
            &&& devices[k].state is Ready
            &&& !(devices[k].transport is Emulator)
            &&& !(devices[k].transport is Network && exists|j: int|
                #![trigger devices[j]]
                {
                    &&& 0 <= j < devices.len()
                    &&& devices[j].state is Ready
                    &&& devices[j].transport is Usb
                    &&& devices[j].board is Some
                    &&& devices[k].board is Some
                    &&& devices[j].board->0@ == devices[k].board->0@
                })
        },
{
    let ready = devices.filter(usable());
    let d = devices[k];
    if exists|i: int| 0 <= i < ready.len() && #[trigger] cabled_twin(ready[i], d.row().board) {
        let i = choose|i: int|
            0 <= i < ready.len() && #[trigger] cabled_twin(ready[i], d.row().board);
        assert(ready.contains(ready[i]));
        devices.lemma_filter_contains_rev(usable(), ready[i]);
        let j = choose|j: int| 0 <= j < devices.len() && devices[j] == ready[i];
        assert(devices[j].state is Ready) by {
            broadcast use vstd::seq_lib::group_filter_ensures;

            assert(usable()(ready[i]));
        }
        assert(devices[j].board->0@ == devices[k].board->0@);
    }
    if d.transport is Network && exists|j: int|
        #![trigger devices[j]]
        {
            &&& 0 <= j < devices.len()
            &&& devices[j].state is Ready
            &&& devices[j].transport is Usb
            &&& devices[j].board is Some
            &&& d.board is Some
            &&& devices[j].board->0@ == d.board->0@
        } {
        let j = choose|j: int|
            #![trigger devices[j]]
            {
                &&& 0 <= j < devices.len()
                &&& devices[j].state is Ready
                &&& devices[j].transport is Usb
                &&& devices[j].board is Some
                &&& d.board is Some
                &&& devices[j].board->0@ == d.board->0@
            };
        assert(usable()(devices[j]));
        devices.lemma_filter_contains(usable(), j);
        let i = choose|i: int| 0 <= i < ready.len() && ready[i] == devices[j];
        assert(cabled_twin(ready[i], d.row().board));
    }
}

/// Where none is named, the one device that can be meant is picked: the one that is ready, is
/// no emulator, and is not just the wireless entry of a phone that is also ready on its cable.
/// Where none or several can be meant, none is picked.
pub proof fn law_the_one_device_that_can_be_meant_is_picked(
    devices: Seq<Device>,
    can: Seq<bool>,
    k: int,
)
    requires
        can.len() == devices.len(),
        forall|i: int|
            0 <= i < devices.len() ==> #[trigger] can[i] == {
                &&& devices[i].state is Ready
                &&& !(devices[i].transport is Emulator)
                &&& !(devices[i].transport is Network && exists|j: int|
                    #![trigger devices[j]]
                    {
                        &&& 0 <= j < devices.len()
                        &&& devices[j].state is Ready
                        &&& devices[j].transport is Usb
                        &&& devices[j].board is Some
                        &&& devices[i].board is Some
                        &&& devices[j].board->0@ == devices[i].board->0@
                    })
            },
        0 <= k < devices.len(),
    ensures
        can[k] && (forall|i: int| 0 <= i < can.len() && i != k ==> !#[trigger] can[i]) ==> picked(
            devices,
            None,
        ) == Ok::<Device, Seq<char>>(devices[k]),
        can[k] && (exists|i: int| 0 <= i < can.len() && i != k && #[trigger] can[i]) ==> picked(
            devices,
            None,
        ) is Err,
        (forall|i: int| 0 <= i < can.len() ==> !#[trigger] can[i]) ==> picked(devices, None) is Err,
{
    let p = |d: Device| usable()(d) && preferred(devices.filter(usable()))(d);
    lemma_candidates_at_once(devices);
    assert forall|i: int| 0 <= i < devices.len() implies p(#[trigger] devices[i]) == can[i] by {
        lemma_meant(devices, i);
    }
    if can[k] && (forall|i: int| 0 <= i < can.len() && i != k ==> !#[trigger] can[i]) {
        lemma_kept_where(devices, p, k);
    }
    if can[k] && (exists|i: int| 0 <= i < can.len() && i != k && #[trigger] can[i]) {
        let i = choose|i: int| 0 <= i < can.len() && i != k && #[trigger] can[i];
        assert(p(devices[i]) && p(devices[k]));
        if i < k {
            lemma_two_kept(devices, p, i, k);
        } else {
            lemma_two_kept(devices, p, k, i);
        }
    }
    if forall|i: int| 0 <= i < can.len() ==> !#[trigger] can[i] {
        lemma_none_kept(devices, p);
    }
}

/// The only device that is ready and no emulator is picked, however it is reached.
pub proof fn law_the_only_ready_phone_is_picked(devices: Seq<Device>, k: int)
    requires
        0 <= k < devices.len(),
        devices[k].state is Ready,
        !(devices[k].transport is Emulator),
        forall|j: int|
            0 <= j < devices.len() && j != k ==> !((#[trigger] devices[j]).state is Ready)
                || devices[j].transport is Emulator,
    ensures
        picked(devices, None) == Ok::<Device, Seq<char>>(devices[k]),
{
    let can = Seq::new(devices.len(), |i: int| i == k);
    law_the_one_device_that_can_be_meant_is_picked(devices, can, k);
}

/// A named device is the first with that serial, whatever else is connected: it is picked
/// where it is ready and refused where it is not, and one that is not there is refused too.
pub proof fn law_a_named_device_is_taken_at_its_word(
    devices: Seq<Device>,
    serial: Seq<char>,
    k: int,
)
    requires
        0 <= k <= devices.len(),
        forall|j: int| 0 <= j < k ==> (#[trigger] devices[j]).serial@ != serial,
        k < devices.len() ==> devices[k].serial@ == serial,
    ensures
        k < devices.len() && devices[k].state is Ready ==> picked(devices, Some(serial)) == Ok::<
            Device,
            Seq<char>,
        >(devices[k]),
        k < devices.len() && !(devices[k].state is Ready) ==> picked(devices, Some(serial)) is Err,
        k == devices.len() ==> picked(devices, Some(serial)) is Err,
{
    lemma_first_with_serial(devices, serial, k);
}

proof fn lemma_first_with_serial(devices: Seq<Device>, serial: Seq<char>, k: int)
    requires
        0 <= k <= devices.len(),
        forall|j: int| 0 <= j < k ==> (#[trigger] devices[j]).serial@ != serial,
        k < devices.len() ==> devices[k].serial@ == serial,
    ensures
        with_serial(devices, serial) == (if k < devices.len() {
            Some(devices[k])
        } else {
            None
        }),
    decreases devices.len(),
{
    if devices.len() > 0 {
        let rest = devices.drop_last();
        if k < devices.len() {
            lemma_first_with_serial(rest, serial, k);
        } else {
            lemma_first_with_serial(rest, serial, k - 1);
            assert(devices[k - 1].serial@ != serial);
        }
    }
}

/// A column says something about a device where it begins with the name of it and a colon.
pub open spec fn is_about(column: Seq<char>, name: Seq<char>) -> bool {
    name.push(':').is_prefix_of(column)
}

proof fn lemma_cut_is_about(column: Seq<char>, name: Seq<char>)
    requires
        !name.contains(':'),
    ensures
        match text::cut_first(column, ':') {
            Some((key, value)) => is_about(column, name) == (key == name) && (key == name ==> value
                == column.skip(name.len() as int + 1)),
            None => !is_about(column, name),
        },
{
    text::law_a_cut_text_goes_together_again(column, ':');
    let n = name.len() as int;
    if is_about(column, name) {
        assert(column.subrange(0, n + 1) == name.push(':'));
        assert(column[n] == column.subrange(0, n + 1)[n]);
        assert(column.contains(column[n]));
        let (key, value) = text::cut_first(column, ':')->0;
        let k = key.len() as int;
        assert(column[k] == ':');
        if k < n {
            assert(column.subrange(0, n + 1)[k] == name[k]);
            assert(name.contains(name[k]));
        }
        if k > n {
            assert(key[n] == column[n]);
            assert(key.contains(key[n]));
        }
        assert forall|i: int| 0 <= i < n implies key[i] == name[i] by {
            assert(column.subrange(0, n + 1)[i] == name.push(':')[i]);
            assert(key[i] == column[i]);
        }
        assert(key =~= name);
        assert(value =~= column.skip(n + 1));
    }
    if let Some((key, value)) = text::cut_first(column, ':') {
        if key == name {
            assert(column.subrange(0, n + 1) =~= name.push(':'));
        }
    }
}

/// What is said of a device behind its serial and state stands behind the name of it and a
/// colon; where it is said more than once the last holds, and the first two columns say nothing.
pub proof fn law_the_last_mention_of_a_field_holds(columns: Seq<Seq<char>>, name: Seq<char>)
    requires
        !name.contains(':'),
    ensures
        match field_of(columns, name) {
            Some(value) => exists|k: int|
                {
                    &&& 2 <= k < columns.len()
                    &&& is_about(#[trigger] columns[k], name)
                    &&& value == columns[k].skip(name.len() as int + 1)
                    &&& forall|i: int|
                        k < i < columns.len() ==> !is_about(#[trigger] columns[i], name)
                },
            None => forall|i: int| 2 <= i < columns.len() ==> !is_about(#[trigger] columns[i], name),
        },
    decreases columns.len(),
{
    if columns.len() > 2 {
        let before = columns.drop_last();
        let last = columns.len() - 1;
        lemma_cut_is_about(columns.last(), name);
        assert(columns[last] == columns.last());
        if !is_about(columns.last(), name) {
            law_the_last_mention_of_a_field_holds(before, name);
            assert forall|i: int| 0 <= i < before.len() implies before[i]
                == #[trigger] columns[i] by {}
            match field_of(before, name) {
                Some(value) => {
                    let k = choose|k: int|
                        {
                            &&& 2 <= k < before.len()
                            &&& is_about(#[trigger] before[k], name)
                            &&& value == before[k].skip(name.len() as int + 1)
                            &&& forall|i: int|
                                k < i < before.len() ==> !is_about(#[trigger] before[i], name)
                        };
                    assert(is_about(columns[k], name));
                    assert forall|i: int| k < i < columns.len() implies !is_about(
                        #[trigger] columns[i],
                        name,
                    ) by {
                        if i < last {
                            assert(!is_about(before[i], name));
                        }
                    }
                },
                None => {
                    assert forall|i: int| 2 <= i < columns.len() implies !is_about(
                        #[trigger] columns[i],
                        name,
                    ) by {
                        if i < last {
                            assert(!is_about(before[i], name));
                        }
                    }
                },
            }
        }
    }
}

/// A serial that begins like an emulator's is one's, else one that ends in a port is reached
/// over the network, and one without a colon by cable.
pub proof fn law_the_serial_tells_the_transport(serial: Seq<char>, host: Seq<char>, port: nat)
    ensures
        "emulator-"@.is_prefix_of(serial) ==> transport_of(serial) == Transport::Emulator,
        !"emulator-"@.is_prefix_of(serial) && !serial.contains(':') ==> transport_of(serial)
            == Transport::Usb,
        !"emulator-"@.is_prefix_of(serial) && serial == host.push(':') + text::decimal(port)
            && host.len() > 0 && port <= 65535 ==> transport_of(serial) == Transport::Network,
{
    text::law_a_cut_text_goes_together_again(serial, ':');
    text::law_a_written_number_reads_back(port, u16::MAX as int);
    text::lemma_decimal_reads_back(port);
    let d = text::decimal(port);
    if serial == host.push(':') + d {
        let n = host.len() as int;
        assert(serial[n] == ':');
        assert(serial.contains(serial[n]));
        let (a, b) = text::cut_last(serial, ':')->0;
        let k = a.len() as int;
        assert(serial[k] == ':');
        if k > n {
            assert(serial[k] == d[k - n - 1]);
            assert(text::is_digit(d[k - n - 1]));
        }
        if k < n {
            assert(b[n - k - 1] == serial[n]);
            assert(b.contains(b[n - k - 1]));
        }
        assert(k == n);
        assert(serial.skip(n + 1) =~= d);
        assert(serial.skip(n + 1) =~= b) by {
            assert(serial == a.push(':') + b);
        }
    }
}

/// Every line of two words or more that is neither the heading nor a remark is a device, with
/// the first word for its serial and the second for its state, and no other line is.
pub proof fn law_every_line_is_a_device(lines: Seq<Seq<char>>, row: DeviceRow)
    ensures
        devices_in(lines).contains(row) <==> exists|k: int|
            0 <= k < lines.len() && is_device_line(#[trigger] lines[k]) && device_in(
                text::trimmed(lines[k]),
            ) == Some(row),
    decreases lines.len(),
{
    let all = devices_in(lines);
    if lines.len() > 0 {
        let front = lines.drop_last();
        let before = devices_in(front);
        let last = lines.len() - 1;
        let line = text::trimmed(lines.last());
        law_every_line_is_a_device(front, row);
        assert(lines[last] == lines.last());
        assert forall|i: int| 0 <= i < front.len() implies front[i] == #[trigger] lines[i] by {}
        if before.contains(row) {
            let i = choose|i: int| 0 <= i < before.len() && before[i] == row;
            assert(all[i] == row);
            let k = choose|k: int|
                0 <= k < front.len() && is_device_line(#[trigger] front[k]) && device_in(
                    text::trimmed(front[k]),
                ) == Some(row);
            assert(is_device_line(lines[k]));
        } else if all.contains(row) {
            let i = choose|i: int| 0 <= i < all.len() && all[i] == row;
            if i < before.len() {
                assert(before[i] == row);
            }
            assert(is_device_line(lines[last]));
        }
        if is_device_line(lines.last()) && device_in(line) == Some(row) {
            assert(all[before.len() as int] == row);
        }
        if exists|k: int|
            0 <= k < lines.len() && is_device_line(#[trigger] lines[k]) && device_in(
                text::trimmed(lines[k]),
            ) == Some(row) {
            let k = choose|k: int|
                0 <= k < lines.len() && is_device_line(#[trigger] lines[k]) && device_in(
                    text::trimmed(lines[k]),
                ) == Some(row);
            if k < last {
                assert(is_device_line(front[k]));
            }
        }
    }
}

/// A line of two words or more that does not begin like the heading or with a star.
pub open spec fn is_device_line(line: Seq<char>) -> bool {
    let bare = text::trimmed(line);
    &&& text::words(bare).len() >= 2
    &&& !"List of devices"@.is_prefix_of(bare)
    &&& !(bare.len() > 0 && bare[0] == '*')
}

/// A line says its device's serial and state with its first two words, and the words for the
/// states are those of `adb`.
pub proof fn law_a_device_is_its_words(line: Seq<char>)
    requires
        text::words(line).len() >= 2,
    ensures
        device_in(line) matches Some(d) && {
            &&& d.serial == text::words(line)[0]
            &&& d.state is Ready <==> text::words(line)[1] == "device"@
            &&& d.state is Unauthorized <==> text::words(line)[1] == "unauthorized"@
            &&& d.state is Offline <==> text::words(line)[1] == "offline"@
            &&& d.state is Other ==> d.state->Other_0 == text::words(line)[1]
            &&& d.transport == transport_of(text::words(line)[0])
            &&& d.model == field_of(text::words(line), "model"@)
            &&& d.board == field_of(text::words(line), "device"@)
        },
{
    reveal_strlit("device");
    reveal_strlit("unauthorized");
    reveal_strlit("offline");
    assert("device"@.len() == 6);
    assert("offline"@.len() == 7);
    assert("unauthorized"@.len() == 12);
}

} // verus!

//! The one menu the app has.
//!
//! It is rebuilt from scratch every time it is about to open, which is what keeps it
//! honest about devices that were plugged in or unplugged meanwhile.
use vstd::prelude::*;
use crate::audio::bridge as controls;
use crate::audio::bridge::{clamped, Bridge};
use crate::audio_ui::bridge::Device;
use crate::audio_ui::settings::Settings;
use crate::text;
use crate::text::text_opt;

verus! {

/// How wide the voice meter is. The width is fixed because a menu sizes itself as it
/// opens and will not grow around a title that got longer underneath it.
pub const METER_CELLS: usize = 10;

/// How near a stored threshold has to be to a preset to be shown as that preset, in
/// thousandths.
pub const GATE_TOLERANCE: u32 = 10;

/// The voice gate as the menu offers it, with the voice probability below which it
/// closes, in thousandths.
pub const GATES: [(&'static str, u32); 4] = [
    ("Off", 0),
    ("Light", 500),
    ("Medium", 800),
    ("Strong", 950),
];

/// The thresholds of the voice gate, in thousandths.
pub open spec fn gate_thresholds() -> Seq<u32> {
    seq![0u32, 500u32, 800u32, 950u32]
}

/// The names of the voice gate's settings.
pub open spec fn gate_names() -> Seq<Seq<char>> {
    seq!["Off"@, "Light"@, "Medium"@, "Strong"@]
}

/// The thresholds of the voice gate, as the bits of single-precision numbers.
pub open spec fn gate_patterns() -> Seq<u32> {
    seq![0u32, 0x3f00_0000u32, 0x3f4c_cccdu32, 0x3f73_3333u32]
}

/// The threshold of a setting of the voice gate, as the bits of a single-precision number.
pub fn gate_bits(index: usize) -> (r: Option<u32>)
    ensures
        r == (if index < 4 {
            Some(gate_patterns()[index as int])
        } else {
            None
        }),
{
    if index == 0 {
        Some(0)
    } else if index == 1 {
        Some(0x3f00_0000)
    } else if index == 2 {
        Some(0x3f4c_cccd)
    } else if index == 3 {
        Some(0x3f73_3333)
    } else {
        None
    }
}

/// No two presets are near enough for a threshold to be shown as both.
pub proof fn law_no_threshold_is_two_presets(i: int, j: int, threshold: int)
    requires
        0 <= i < j < 4,
    ensures
        !(-GATE_TOLERANCE < threshold - gate_thresholds()[i] < GATE_TOLERANCE && -GATE_TOLERANCE
            < threshold - gate_thresholds()[j] < GATE_TOLERANCE),
{
}

/// What picking an entry does.
#[derive(Debug, Clone, Copy, PartialEq, Eq, Structural)]
pub enum Pick {
    ToggleBridge,
    SelectInput,
    SelectOutput,
    ToggleDenoise,
    SelectVoiceGate,
    Quit,
}

/// An entry of a menu.
#[derive(Debug)]
pub struct Entry {
    pub title: String,
    pub ticked: bool,
    pub enabled: bool,
    pub pick: Option<Pick>,
    /// Which of its sort it is.
    pub tag: usize,
}

/// A row of the menu.
#[derive(Debug)]
pub enum Row {
    Separator,
    Item(Entry),
    Submenu(Entry, Vec<Entry>),
    /// The meter, whose title is rewritten while the menu is up.
    Meter(Entry),
}

/// An entry of a menu.
pub ghost struct EntryRow {
    pub title: Seq<char>,
    pub ticked: bool,
    pub enabled: bool,
    pub pick: Option<Pick>,
    pub tag: int,
}

/// A row of the menu.
pub ghost enum MenuRow {
    Separator,
    Item(EntryRow),
    Submenu(EntryRow, Seq<EntryRow>),
    Meter(EntryRow),
}

impl Entry {
    pub open spec fn row(self) -> EntryRow {
        EntryRow {
            title: self.title@,
            ticked: self.ticked,
            enabled: self.enabled,
            pick: self.pick,
            tag: self.tag as int,
        }
    }
}

/// What the entries of a list are.
pub open spec fn entry_rows(v: Seq<Entry>) -> Seq<EntryRow> {
    v.map_values(|e: Entry| e.row())
}

impl Row {
    pub open spec fn row(self) -> MenuRow {
        match self {
            Row::Separator => MenuRow::Separator,
            Row::Item(e) => MenuRow::Item(e.row()),
            Row::Submenu(e, inner) => MenuRow::Submenu(e.row(), entry_rows(inner@)),
            Row::Meter(e) => MenuRow::Meter(e.row()),
        }
    }
}

/// What the rows of a menu are.
pub open spec fn menu_rows(v: Seq<Row>) -> Seq<MenuRow> {
    v.map_values(|r: Row| r.row())
}

/// An entry.
pub open spec fn entry(
    title: Seq<char>,
    ticked: bool,
    enabled: bool,
    pick: Option<Pick>,
    tag: int,
) -> EntryRow {
    EntryRow { title, ticked, enabled, pick, tag }
}

fn item(title: &str, ticked: bool, enabled: bool, pick: Option<Pick>, tag: usize) -> (r: Entry)
    ensures
        r.row() == entry(title@, ticked, enabled, pick, tag as int),
{
    Entry { title: title.to_owned(), ticked, enabled, pick, tag }
}

/// The bar of the meter, of which some cells are full.
pub open spec fn bar(filled: int, n: nat) -> Seq<char>
    decreases n,
{
    if n == 0 {
        Seq::empty()
    } else {
        bar(filled, (n - 1) as nat).push(
            if n - 1 < filled {
                '\u{2588}'
            } else {
                '\u{2591}'
            },
        )
    }
}

/// The title of the meter.
pub open spec fn meter_title(filled: int) -> Seq<char> {
    "Voice  "@ + bar(filled, METER_CELLS as nat)
}

/// The title of the meter with some of its cells full. More than there are is all of
/// them.
pub fn meter(filled: usize) -> (r: String)
    ensures
        r@ == meter_title(filled as int),
{
    let mut title: String = "Voice  ".to_owned();
    let ghost head = title@;
    assert(head + bar(filled as int, 0) =~= head);
    for i in 0..METER_CELLS
        invariant
            title@ == head + bar(filled as int, i as nat),
    {
        let ghost before = title@;
        if i < filled {
            title.push('\u{2588}');
        } else {
            title.push('\u{2591}');
        }
        assert(title@ =~= head + bar(filled as int, (i + 1) as nat));
    }
    title
}

proof fn lemma_bar_len(filled: int, n: nat)
    ensures
        bar(filled, n).len() == n,
        forall|i: int|
            0 <= i < n ==> (#[trigger] bar(filled, n)[i]) == (if i < filled {
                '\u{2588}'
            } else {
                '\u{2591}'
            }),
    decreases n,
{
    if n > 0 {
        lemma_bar_len(filled, (n - 1) as nat);
    }
}

/// The meter is as wide however much of it is full, and it fills from the left.
pub proof fn law_the_meter_is_always_as_wide(filled: int)
    ensures
        bar(filled, METER_CELLS as nat).len() == METER_CELLS,
        forall|i: int|
            0 <= i < METER_CELLS ==> (#[trigger] bar(filled, METER_CELLS as nat)[i]) == (if i
                < filled {
                '\u{2588}'
            } else {
                '\u{2591}'
            }),
{
    lemma_bar_len(filled, METER_CELLS as nat);
}

/// The entries for devices, with a tick at the one that was picked.
pub open spec fn device_entries(
    devices: Seq<Device>,
    selected: Option<Seq<char>>,
    pick: Pick,
) -> Seq<EntryRow> {
    if devices.len() == 0 {
        seq![entry("No devices"@, false, false, None, 0)]
    } else {
        Seq::new(
            devices.len(),
            |i: int| entry(devices[i].name@, selected == Some(devices[i].uid@), true, Some(pick), i),
        )
    }
}

fn list_devices(devices: &Vec<Device>, selected: &Option<String>, pick: Pick) -> (r: Vec<Entry>)
    ensures
        entry_rows(r@) == device_entries(devices@, text_opt(*selected), pick),
{
    let mut out: Vec<Entry> = Vec::new();
    if devices.len() == 0 {
        out.push(item("No devices", false, false, None, 0));
        assert(entry_rows(out@) =~= device_entries(devices@, text_opt(*selected), pick));
        return out;
    }
    let ghost want = device_entries(devices@, text_opt(*selected), pick);
    assert(entry_rows(out@) =~= want.take(0));
    for i in 0..devices.len()
        invariant
            devices@.len() > 0,
            want == device_entries(devices@, text_opt(*selected), pick),
            entry_rows(out@) == want.take(i as int),
    {
        let d = &devices[i];
        let ticked: bool = match selected {
            Some(uid) => text::same(uid, &d.uid),
            None => false,
        };
        let e = item(&d.name, ticked, true, Some(pick), i);
        let ghost row = e.row();
        let ghost before = entry_rows(out@);
        assert(row == want[i as int]);
        out.push(e);
        assert(entry_rows(out@) =~= before.push(row));
        assert(want.take(i + 1) =~= want.take(i as int).push(row));
    }
    assert(want.take(want.len() as int) =~= want);
    out
}

/// The entries of the voice gate, with a tick at the one in force.
pub open spec fn gate_entries(current: Option<usize>) -> Seq<EntryRow> {
    Seq::new(
        4,
        |i: int|
            entry(
                gate_names()[i],
                current == Some(i as usize),
                true,
                Some(Pick::SelectVoiceGate),
                i,
            ),
    )
}

fn is_current(current: Option<usize>, i: usize) -> (r: bool)
    ensures
        r == (current == Some(i)),
{
    match current {
        Some(c) => c == i,
        None => false,
    }
}

fn list_gates(current: Option<usize>) -> (r: Vec<Entry>)
    ensures
        entry_rows(r@) == gate_entries(current),
{
    let v: Vec<Entry> = vec![
        item("Off", is_current(current, 0), true, Some(Pick::SelectVoiceGate), 0),
        item("Light", is_current(current, 1), true, Some(Pick::SelectVoiceGate), 1),
        item("Medium", is_current(current, 2), true, Some(Pick::SelectVoiceGate), 2),
        item("Strong", is_current(current, 3), true, Some(Pick::SelectVoiceGate), 3),
    ];
    assert(entry_rows(v@) =~= gate_entries(current));
    v
}

/// The title of the switch. There is no window to explain a greyed-out item, so the title
/// says why.
pub open spec fn bridge_title(can: bool) -> Seq<char> {
    if can {
        "Bridge on"@
    } else {
        "Bridge on (choose a microphone and speaker)"@
    }
}

/// The title of the voice gate, which can only do anything while the suppressor is
/// running.
pub open spec fn gate_title(denoising: bool) -> Seq<char> {
    if denoising {
        "Mute when not speaking"@
    } else {
        "Mute when not speaking (needs Reduce noise)"@
    }
}

/// What the menu shows of the voice.
#[derive(Debug, Clone, Copy)]
pub struct Voice {
    /// Which of the settings of the noise gate is in force, where one is.
    pub gate: Option<usize>,
    /// How many cells of the meter are full.
    pub cells: usize,
}

/// The whole menu.
pub open spec fn menu_of(
    bridge: Bridge,
    settings: Settings,
    inputs: Seq<Device>,
    outputs: Seq<Device>,
    voice: Voice,
) -> Seq<MenuRow> {
    let can = bridge.running || (settings.input_uid is Some && settings.output_uid is Some);
    seq![
        MenuRow::Item(
            entry(bridge_title(can), bridge.running, can, Some(Pick::ToggleBridge), 0),
        ),
        MenuRow::Separator,
        MenuRow::Submenu(
            entry("Microphone"@, false, true, None, 0),
            device_entries(inputs, text_opt(settings.input_uid), Pick::SelectInput),
        ),
        MenuRow::Submenu(
            entry("Speaker"@, false, true, None, 0),
            device_entries(outputs, text_opt(settings.output_uid), Pick::SelectOutput),
        ),
        MenuRow::Separator,
        MenuRow::Item(
            entry("Reduce noise"@, bridge.denoise, true, Some(Pick::ToggleDenoise), 0),
        ),
        MenuRow::Submenu(
            entry(gate_title(bridge.denoise), false, bridge.denoise, None, 0),
            gate_entries(voice.gate),
        ),
    ] + (if bridge.running && bridge.denoise {
        seq![MenuRow::Meter(entry(meter_title(voice.cells as int), false, false, None, 0))]
    } else {
        Seq::empty()
    }) + seq![
        MenuRow::Separator,
        MenuRow::Item(entry("Quit"@, false, true, Some(Pick::Quit), 0)),
    ]
}

/// What the menu works on.
#[derive(Debug)]
pub struct Controller {
    pub settings: Settings,
}

impl Controller {
    /// Hands the bridge back the noise settings that were left.
    pub fn restore(&self, bridge: &mut Bridge)
        ensures
            *final(bridge) == (Bridge {
                denoise: self.settings.denoise == Some(true),
                threshold: clamped(
                    match self.settings.voice_threshold {
                        Some(bits) => bits,
                        None => 0,
                    },
                ),
                ..*old(bridge)
            }),
    {
        let on = self.settings.denoises();
        let bits = self.settings.gate_bits();
        controls::set_denoise(bridge, on);
        controls::set_voice_threshold(bridge, bits);
    }

    /// Switches noise suppression over, and records which way.
    pub fn toggle_denoise(&mut self, bridge: &mut Bridge)
        ensures
            *final(bridge) == (Bridge { denoise: !old(bridge).denoise, ..*old(bridge) }),
            final(self).settings == (Settings {
                denoise: Some(!old(bridge).denoise),
                ..old(self).settings
            }),
    {
        let on = !controls::denoise(bridge);
        controls::set_denoise(bridge, on);
        self.settings.denoise = Some(on);
    }

    /// Sets the voice gate to one of the presets, records it, and says whether there is such
    /// a preset. Nothing changes where there is none.
    pub fn select_voice_gate(&mut self, index: usize, bridge: &mut Bridge) -> (r: bool)
        ensures
            r == (index < 4),
            r ==> *final(bridge) == (Bridge {
                threshold: gate_patterns()[index as int],
                ..*old(bridge)
            }),
            r ==> final(self).settings == (Settings {
                voice_threshold: Some(gate_patterns()[index as int]),
                ..old(self).settings
            }),
            !r ==> *final(bridge) == *old(bridge) && *final(self) == *old(self),
    {
        match gate_bits(index) {
            Some(bits) => {
                controls::set_voice_threshold(bridge, bits);
                self.settings.voice_threshold = Some(bits);
                true
            },
            None => false,
        }
    }

    /// The whole menu.
    pub fn build(
        &self,
        bridge: &Bridge,
        inputs: &Vec<Device>,
        outputs: &Vec<Device>,
        voice: Voice,
    ) -> (r: Vec<Row>)
        ensures
            menu_rows(r@) == menu_of(*bridge, self.settings, inputs@, outputs@, voice),
    {
        let can: bool = bridge.running || self.settings.is_picked();
        let title: &str = if can {
            "Bridge on"
        } else {
            "Bridge on (choose a microphone and speaker)"
        };
        let gate_name: &str = if bridge.denoise {
            "Mute when not speaking"
        } else {
            "Mute when not speaking (needs Reduce noise)"
        };
        let mics = list_devices(inputs, &self.settings.input_uid, Pick::SelectInput);
        let speakers = list_devices(outputs, &self.settings.output_uid, Pick::SelectOutput);
        let gates = list_gates(voice.gate);
        let toggle = item(title, bridge.running, can, Some(Pick::ToggleBridge), 0);
        let reduce = item("Reduce noise", bridge.denoise, true, Some(Pick::ToggleDenoise), 0);
        let gate = item(gate_name, false, bridge.denoise, None, 0);
        let mut rows: Vec<Row> = vec![
            Row::Item(toggle),
            Row::Separator,
            Row::Submenu(item("Microphone", false, true, None, 0), mics),
            Row::Submenu(item("Speaker", false, true, None, 0), speakers),
            Row::Separator,
            Row::Item(reduce),
            Row::Submenu(gate, gates),
        ];
        if bridge.running && bridge.denoise {
            let bar = meter(voice.cells);
            rows.push(Row::Meter(item(&bar, false, false, None, 0)));
        }
        rows.push(Row::Separator);
        rows.push(Row::Item(item("Quit", false, true, Some(Pick::Quit), 0)));
        assert(menu_rows(rows@) =~= menu_of(*bridge, self.settings, inputs@, outputs@, voice));
        rows
    }

    /// What toggling the bridge does: stops one that runs, and starts one between what
    /// was picked. Nothing where nothing was picked.
    pub fn toggle_bridge(&self, bridge: &Bridge) -> (r: Toggle)
        ensures
            if bridge.running {
                r is Stop
            } else {
                match (text_opt(self.settings.input_uid), text_opt(self.settings.output_uid)) {
                    (Some(i), Some(o)) => r matches Toggle::Start { input, output } && input@ == i
                        && output@ == o,
                    _ => r is Nothing,
                }
            },
    {
        if bridge.running {
            return Toggle::Stop;
        }
        match (&self.settings.input_uid, &self.settings.output_uid) {
            (Some(i), Some(o)) => Toggle::Start { input: i.clone(), output: o.clone() },
            _ => Toggle::Nothing,
        }
    }

    /// Records the device that was picked in a direction and, if the bridge is already
    /// up, says what to move it onto rather than leaving it on the one that was just
    /// deselected.
    pub fn pick_device(&mut self, input: bool, uid: Option<String>, bridge: &Bridge) -> (r: Toggle)
        ensures
            match uid {
                None => r is Nothing && *final(self) == *old(self),
                Some(u) => {
                    &&& final(self).settings == (if input {
                        Settings { input_uid: Some(u), ..old(self).settings }
                    } else {
                        Settings { output_uid: Some(u), ..old(self).settings }
                    })
                    &&& match (
                        text_opt(final(self).settings.input_uid),
                        text_opt(final(self).settings.output_uid),
                    ) {
                        (Some(i), Some(o)) => if bridge.running {
                            r matches Toggle::Start { input: a, output: b } && a@ == i && b@ == o
                        } else {
                            r is Nothing
                        },
                        _ => r is Nothing,
                    }
                },
            },
    {
        let picked = match uid {
            Some(u) => u,
            None => {
                return Toggle::Nothing;
            },
        };
        if input {
            self.settings.input_uid = Some(picked);
        } else {
            self.settings.output_uid = Some(picked);
        }
        if !bridge.running {
            return Toggle::Nothing;
        }
        match (&self.settings.input_uid, &self.settings.output_uid) {
            (Some(i), Some(o)) => Toggle::Start { input: i.clone(), output: o.clone() },
            _ => Toggle::Nothing,
        }
    }
}

/// What becomes of the bridge.
#[derive(Debug)]
pub enum Toggle {
    Stop,
    Start { input: String, output: String },
    Nothing,
}

/// The patterns of the presets are the numbers nearest to their thousandths, and a stronger
/// preset takes more of a voice.
pub proof fn law_the_presets_are_their_thousandths(i: int, j: int)
    requires
        0 <= i < j < 4,
    ensures
        gate_patterns()[0] == 0,
        gate_thresholds()[0] == 0,
        gate_patterns()[i] < gate_patterns()[j] < 0x3f80_0000,
        gate_thresholds()[i] < gate_thresholds()[j] < 1000,
        0x3f00_0000 <= gate_patterns()[j],
        -500 <= (0x80_0000 + (gate_patterns()[j] - 0x3f00_0000)) * 1000 - gate_thresholds()[j]
            * 0x100_0000 <= 500,
{
}

/// Every device is an entry of its own that can be picked by its place, and the one that is
/// selected is ticked, no other. Without devices there is one entry that cannot be picked.
pub proof fn law_every_device_can_be_picked(
    devices: Seq<Device>,
    selected: Option<Seq<char>>,
    pick: Pick,
    i: int,
)
    requires
        0 <= i < devices.len(),
    ensures
        device_entries(devices, selected, pick).len() == devices.len(),
        ({
            let e = device_entries(devices, selected, pick)[i];
            &&& e.title == devices[i].name@
            &&& e.tag == i
            &&& e.pick == Some(pick)
            &&& e.enabled
            &&& e.ticked <==> selected is Some && selected->0 == devices[i].uid@
        }),
        device_entries(Seq::empty(), selected, pick).len() == 1,
        !device_entries(Seq::empty(), selected, pick)[0].enabled,
        device_entries(Seq::empty(), selected, pick)[0].pick is None,
{
}

/// The menu lets the bridge be turned on once both devices are picked, and off in any case; it
/// lists the microphones and the speakers apart; and it shows a meter exactly while the bridge
/// runs and reduces noise. Quitting is always there, last.
pub proof fn law_the_menu_says_how_things_stand(
    bridge: Bridge,
    settings: Settings,
    inputs: Seq<Device>,
    outputs: Seq<Device>,
    voice: Voice,
)
    ensures
        ({
            let menu = menu_of(bridge, settings, inputs, outputs, voice);
            let both = settings.input_uid is Some && settings.output_uid is Some;
            &&& menu[0] matches MenuRow::Item(e) && e.pick == Some(Pick::ToggleBridge) && e.ticked
                == bridge.running && e.enabled == (bridge.running || both)
            &&& menu[2] matches MenuRow::Submenu(e, inner) && e.title == "Microphone"@ && inner
                == device_entries(inputs, text_opt(settings.input_uid), Pick::SelectInput)
            &&& menu[3] matches MenuRow::Submenu(e, inner) && e.title == "Speaker"@ && inner
                == device_entries(outputs, text_opt(settings.output_uid), Pick::SelectOutput)
            &&& menu[5] matches MenuRow::Item(e) && e.pick == Some(Pick::ToggleDenoise) && e.ticked
                == bridge.denoise && e.enabled
            &&& menu[6] matches MenuRow::Submenu(e, inner) && e.enabled == bridge.denoise
                && inner.len() == 4
            &&& (exists|i: int| 0 <= i < menu.len() && #[trigger] menu[i] is Meter) <==> (
            bridge.running && bridge.denoise)
            &&& menu.last() matches MenuRow::Item(e) && e.pick == Some(Pick::Quit) && e.enabled
        }),
{
    let menu = menu_of(bridge, settings, inputs, outputs, voice);
    if bridge.running && bridge.denoise {
        assert(menu[7] is Meter);
    } else {
        assert(menu.len() == 9);
        assert forall|i: int| 0 <= i < menu.len() implies !(#[trigger] menu[i] is Meter) by {
            assert(i == 0 || i == 1 || i == 2 || i == 3 || i == 4 || i == 5 || i == 6 || i == 7 || i
                == 8);
        }
    }
}

/// Exactly the preset that is current is ticked, and picking an entry picks the preset of its
/// place.
pub proof fn law_the_current_preset_is_ticked(current: Option<usize>, i: int)
    requires
        0 <= i < 4,
    ensures
        gate_entries(current).len() == 4,
        gate_entries(current)[i].ticked <==> current is Some && current->0 == i,
        gate_entries(current)[i].tag == i,
        gate_entries(current)[i].enabled,
        gate_entries(current)[i].pick == Some(Pick::SelectVoiceGate),
{
}

} // verus!

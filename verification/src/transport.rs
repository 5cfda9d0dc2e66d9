//! Transport-related configuration types.
use vstd::prelude::*;
use vstd::string::to_string_from_display_ensures;

use crate::binary64;
use crate::binary64::Binary64;
use crate::congestion_control::DEFAULT_GAIN_BITS;
use crate::decimal;
use crate::text;

verus! {

/// Where to listen: at an address of type `A`, or at a path.
#[derive(Debug, Clone, PartialEq)]
pub enum BindLocation<A> {
    Address(A),
    Path(String),
}

impl<A> BindLocation<A> {
    /// Listens at an address that is given in another form.
    pub fn from<L>(location: L) -> (result: BindLocation<A>) where A: From<L>
        ensures
            result matches BindLocation::Address(address) && call_ensures(
                A::from,
                (location,),
                address,
            ),
    {
        BindLocation::Address(A::from(location))
    }

    /// The text to show: that of the address, or the path.
    pub fn display_text(&self) -> (result: String) where A: core::fmt::Display
        ensures
            match self {
                BindLocation::Address(address) => to_string_from_display_ensures::<A>(
                    address,
                    result,
                ),
                BindLocation::Path(path) => result@ == path@,
            },
    {
        match self {
            BindLocation::Address(address) => address.to_string(),
            BindLocation::Path(path) => path.clone(),
        }
    }
}

/// The transport of a connection.
#[derive(Debug, Clone, Copy, PartialEq, Eq, Structural)]
pub enum Transport {
    Tcp,
    Quic,
    Udp,
}

impl Default for Transport {
    fn default() -> (transport: Self)
        ensures
            transport == Transport::Tcp,
    {
        Transport::Tcp
    }
}

impl Transport {
    /// Returns true if this is the default transport (TCP)
    pub fn is_default(&self) -> (result: bool)
        ensures
            result == (*self == Transport::Tcp),
    {
        matches!(self, Transport::Tcp)
    }
}

/// Settings of a TCP connection.
#[derive(Debug, Clone, Copy)]
pub struct TcpConfig {
    pub no_delay: bool,
}

impl Default for TcpConfig {
    fn default() -> (config: Self)
        ensures
            config.no_delay,
    {
        TcpConfig { no_delay: true }
    }
}

/// Nothing, one value or several.
#[derive(Debug, Clone)]
pub enum NoneOrSome<T> {
    /// Nothing was said.
    Unspecified,
    /// It was said that there is none.
    Nothing,
    One(T),
    Several(Vec<T>),
}

impl<T> Default for NoneOrSome<T> {
    fn default() -> (result: Self)
        ensures
            result is Unspecified,
    {
        NoneOrSome::Unspecified
    }
}

/// Nothing or one value.
#[derive(Debug, Clone)]
pub enum NoneOrOne<T> {
    /// Nothing was said.
    Unspecified,
    /// It was said that there is none.
    Nothing,
    One(T),
}

impl<T> Default for NoneOrOne<T> {
    fn default() -> (result: Self)
        ensures
            result is Unspecified,
    {
        NoneOrOne::Unspecified
    }
}

/// Settings for the Brutal congestion controller.
#[derive(Debug)]
pub struct BrutalCongestionConfig {
    /// Target bandwidth in human-readable format (e.g., "100m", "1.5g", "30k").
    /// Default: "1m" (1 Mbps)
    pub bandwidth: String,
    /// Multiplier applied to BDP when calculating cwnd.
    /// Higher values are more aggressive but may exceed configured bandwidth.
    /// Default: 1.25
    pub cwnd_gain: Binary64,
    /// Minimum congestion window in bytes.
    /// Default: 16384 (16 KB)
    pub min_window: u64,
    /// Enable ACK rate compensation. When enabled, cwnd is divided by the ACK rate
    /// to compensate for packet loss. This can cause bursty behavior.
    /// Default: false
    pub ack_compensate: bool,
}

/// What [`BrutalCongestionConfig`] says.
#[verifier::ext_equal]
pub struct BrutalSettings {
    pub bandwidth: Seq<char>,
    pub cwnd_gain: Binary64,
    pub min_window: u64,
    pub ack_compensate: bool,
}

impl View for BrutalCongestionConfig {
    type V = BrutalSettings;

    open spec fn view(&self) -> BrutalSettings {
        BrutalSettings {
            bandwidth: self.bandwidth@,
            cwnd_gain: self.cwnd_gain,
            min_window: self.min_window,
            ack_compensate: self.ack_compensate,
        }
    }
}

impl Clone for BrutalCongestionConfig {
    fn clone(&self) -> (copy: Self)
        ensures
            copy@ == self@,
    {
        BrutalCongestionConfig {
            bandwidth: self.bandwidth.clone(),
            cwnd_gain: self.cwnd_gain,
            min_window: self.min_window,
            ack_compensate: self.ack_compensate,
        }
    }
}

/// The default settings.
pub open spec fn default_settings() -> BrutalSettings {
    BrutalSettings {
        bandwidth: "1m"@,
        cwnd_gain: decimal::decimal_number(125, -2),
        min_window: 16384,
        ack_compensate: false,
    }
}

/// The bandwidth where none is given.
pub fn default_brutal_bandwidth() -> (bandwidth: String)
    ensures
        bandwidth@ == default_settings().bandwidth,
{
    String::from_str("1m")
}

/// The gain where none is given.
pub fn default_brutal_cwnd_gain() -> (gain: Binary64)
    ensures
        gain == default_settings().cwnd_gain,
{
    proof {
        crate::congestion_control::lemma_default_gain();
    }
    Binary64::from_bits(DEFAULT_GAIN_BITS)
}

/// The minimum window where none is given.
pub fn default_brutal_min_window() -> (bytes: u64)
    ensures
        bytes == default_settings().min_window,
{
    16 * 1024
}

impl Default for BrutalCongestionConfig {
    fn default() -> (config: Self)
        ensures
            config@ == default_settings(),
    {
        BrutalCongestionConfig {
            bandwidth: default_brutal_bandwidth(),
            cwnd_gain: default_brutal_cwnd_gain(),
            min_window: default_brutal_min_window(),
            ack_compensate: false,
        }
    }
}

/// Whether two settings are equal; the gains are compared as numbers.
pub open spec fn same_settings(x: BrutalSettings, y: BrutalSettings) -> bool {
    &&& x.bandwidth == y.bandwidth
    &&& binary64::equal_numbers(x.cwnd_gain, y.cwnd_gain)
    &&& x.min_window == y.min_window
    &&& x.ack_compensate == y.ack_compensate
}

impl PartialEq for BrutalCongestionConfig {
    fn eq(&self, other: &Self) -> (result: bool) {
        self.bandwidth == other.bandwidth && self.cwnd_gain.equals(other.cwnd_gain)
            && self.min_window == other.min_window && self.ack_compensate == other.ack_compensate
    }
}

impl vstd::std_specs::cmp::PartialEqSpecImpl for BrutalCongestionConfig {
    open spec fn obeys_eq_spec() -> bool {
        true
    }

    open spec fn eq_spec(&self, other: &Self) -> bool {
        same_settings(self@, other@)
    }
}

/// Congestion control algorithm for QUIC-based protocols.
#[derive(Debug)]
pub enum CongestionControl {
    /// Default congestion controller (Cubic).
    Default,
    /// Brutal - bandwidth-hint-driven congestion controller.
    /// Uses BDP-based window calculation instead of traditional loss-based AIMD.
    /// Particularly effective in high-loss network environments.
    Brutal(BrutalCongestionConfig),
}

/// What [`CongestionControl`] says.
#[verifier::ext_equal]
pub enum ControlChoice {
    Default,
    Brutal(BrutalSettings),
}

impl View for CongestionControl {
    type V = ControlChoice;

    open spec fn view(&self) -> ControlChoice {
        match self {
            CongestionControl::Default => ControlChoice::Default,
            CongestionControl::Brutal(config) => ControlChoice::Brutal(config@),
        }
    }
}

impl Clone for CongestionControl {
    fn clone(&self) -> (copy: Self)
        ensures
            copy@ == self@,
    {
        match self {
            CongestionControl::Default => CongestionControl::Default,
            CongestionControl::Brutal(config) => CongestionControl::Brutal(config.clone()),
        }
    }
}

impl Default for CongestionControl {
    fn default() -> (control: Self)
        ensures
            control@ == ControlChoice::Default,
    {
        CongestionControl::Default
    }
}

/// Whether two choices are equal; gains are compared as numbers.
pub open spec fn same_choice(x: ControlChoice, y: ControlChoice) -> bool {
    match (x, y) {
        (ControlChoice::Default, ControlChoice::Default) => true,
        (ControlChoice::Brutal(a), ControlChoice::Brutal(b)) => same_settings(a, b),
        _ => false,
    }
}

impl PartialEq for CongestionControl {
    fn eq(&self, other: &Self) -> (result: bool) {
        match (self, other) {
            (CongestionControl::Default, CongestionControl::Default) => true,
            (CongestionControl::Brutal(a), CongestionControl::Brutal(b)) => a == b,
            _ => false,
        }
    }
}

impl vstd::std_specs::cmp::PartialEqSpecImpl for CongestionControl {
    open spec fn obeys_eq_spec() -> bool {
        true
    }

    open spec fn eq_spec(&self, other: &Self) -> bool {
        same_choice(self@, other@)
    }
}

/// The fields of a congestion control map.
#[derive(Debug, Clone, Copy, PartialEq, Eq, Structural)]
pub enum ControlField {
    Type,
    Bandwidth,
    CwndGain,
    MinWindow,
    AckCompensate,
    Unknown,
}

/// The field that a key names.
pub open spec fn field_of_key(key: Seq<char>) -> ControlField {
    if key == "type"@ {
        ControlField::Type
    } else if key == "bandwidth"@ {
        ControlField::Bandwidth
    } else if key == "cwnd_gain"@ {
        ControlField::CwndGain
    } else if key == "min_window"@ {
        ControlField::MinWindow
    } else if key == "ack_compensate"@ {
        ControlField::AckCompensate
    } else {
        ControlField::Unknown
    }
}

/// The field that a key names.
pub fn control_field(key: &str) -> (field: ControlField)
    ensures
        field == field_of_key(key@),
{
    if text::same(key, "type") {
        ControlField::Type
    } else if text::same(key, "bandwidth") {
        ControlField::Bandwidth
    } else if text::same(key, "cwnd_gain") {
        ControlField::CwndGain
    } else if text::same(key, "min_window") {
        ControlField::MinWindow
    } else if text::same(key, "ack_compensate") {
        ControlField::AckCompensate
    } else {
        ControlField::Unknown
    }
}

/// An entry of a congestion control map.
#[derive(Debug, Clone)]
pub enum ControlEntry {
    Type(String),
    Bandwidth(String),
    CwndGain(Binary64),
    MinWindow(u64),
    AckCompensate(bool),
    /// An entry with another key.
    Unknown,
}

impl ControlEntry {
    /// The field that the entry is for.
    pub open spec fn field(self) -> ControlField {
        match self {
            ControlEntry::Type(_) => ControlField::Type,
            ControlEntry::Bandwidth(_) => ControlField::Bandwidth,
            ControlEntry::CwndGain(_) => ControlField::CwndGain,
            ControlEntry::MinWindow(_) => ControlField::MinWindow,
            ControlEntry::AckCompensate(_) => ControlField::AckCompensate,
            ControlEntry::Unknown => ControlField::Unknown,
        }
    }
}

impl ControlEntry {
    /// The key under which the entry is written; empty for an unknown one.
    pub fn key(&self) -> (key: &'static str)
        ensures
            field_of_key(key@) == self.field(),
    {
        proof {
            reveal_strlit("type");
            reveal_strlit("bandwidth");
            reveal_strlit("cwnd_gain");
            reveal_strlit("min_window");
            reveal_strlit("ack_compensate");
            reveal_strlit("");
            assert("type"@.len() == 4 && "bandwidth"@.len() == 9 && "cwnd_gain"@.len() == 9);
            assert("min_window"@.len() == 10 && "ack_compensate"@.len() == 14 && ""@.len() == 0);
            assert("bandwidth"@[0] == 'b' && "cwnd_gain"@[0] == 'c');
        }
        match self {
            ControlEntry::Type(_) => "type",
            ControlEntry::Bandwidth(_) => "bandwidth",
            ControlEntry::CwndGain(_) => "cwnd_gain",
            ControlEntry::MinWindow(_) => "min_window",
            ControlEntry::AckCompensate(_) => "ack_compensate",
            ControlEntry::Unknown => "",
        }
    }
}

/// The fields that a congestion control map gives.
#[verifier::ext_equal]
pub struct GivenFields {
    pub cc_type: Option<Seq<char>>,
    pub bandwidth: Option<Seq<char>>,
    pub cwnd_gain: Option<Binary64>,
    pub min_window: Option<u64>,
    pub ack_compensate: Option<bool>,
}

/// The fields after one more entry: it replaces what its field held.
pub open spec fn with_entry(fields: GivenFields, entry: ControlEntry) -> GivenFields {
    match entry {
        ControlEntry::Type(name) => GivenFields { cc_type: Some(name@), ..fields },
        ControlEntry::Bandwidth(text) => GivenFields { bandwidth: Some(text@), ..fields },
        ControlEntry::CwndGain(gain) => GivenFields { cwnd_gain: Some(gain), ..fields },
        ControlEntry::MinWindow(bytes) => GivenFields { min_window: Some(bytes), ..fields },
        ControlEntry::AckCompensate(flag) => GivenFields { ack_compensate: Some(flag), ..fields },
        ControlEntry::Unknown => fields,
    }
}

/// The fields that the entries of a map give.
pub open spec fn given_fields(entries: Seq<ControlEntry>) -> GivenFields
    decreases entries.len(),
{
    if entries.len() == 0 {
        GivenFields {
            cc_type: None,
            bandwidth: None,
            cwnd_gain: None,
            min_window: None,
            ack_compensate: None,
        }
    } else {
        with_entry(given_fields(entries.drop_last()), entries.last())
    }
}

/// The value that is given, or else the default.
pub open spec fn given_or<T>(given: Option<T>, default: T) -> T {
    match given {
        Some(value) => value,
        None => default,
    }
}

impl GivenFields {
    /// Whether the type is the given name, in any case.
    pub open spec fn has_type(self, name: Seq<char>) -> bool {
        self.cc_type is Some && text::is_word(self.cc_type->0, name)
    }

    /// Whether a field is given that only Brutal has.
    pub open spec fn has_brutal_field(self) -> bool {
        self.bandwidth is Some || self.cwnd_gain is Some || self.min_window is Some
            || self.ack_compensate is Some
    }

    /// The settings of Brutal: what is given, and the defaults for the rest.
    pub open spec fn settings(self) -> BrutalSettings {
        BrutalSettings {
            bandwidth: given_or(self.bandwidth, default_settings().bandwidth),
            cwnd_gain: given_or(self.cwnd_gain, default_settings().cwnd_gain),
            min_window: given_or(self.min_window, default_settings().min_window),
            ack_compensate: given_or(self.ack_compensate, default_settings().ack_compensate),
        }
    }

    /// The choice that the fields make: the default where the type says so; Brutal where
    /// the type says so or a field of Brutal is given; the default where there is no type;
    /// no choice where the type is unknown.
    pub open spec fn choice(self) -> Option<ControlChoice> {
        if self.has_type("default"@) {
            Some(ControlChoice::Default)
        } else if self.has_type("brutal"@) || self.has_brutal_field() {
            Some(ControlChoice::Brutal(self.settings()))
        } else if self.cc_type is None {
            Some(ControlChoice::Default)
        } else {
            None
        }
    }
}

/// The fields that a congestion control map gives.
#[derive(Debug, Clone)]
pub struct ControlFields {
    pub cc_type: Option<String>,
    pub bandwidth: Option<String>,
    pub cwnd_gain: Option<Binary64>,
    pub min_window: Option<u64>,
    pub ack_compensate: Option<bool>,
}

/// The text of an optional string.
pub open spec fn optional_text(s: Option<String>) -> Option<Seq<char>> {
    match s {
        Some(s) => Some(s@),
        None => None,
    }
}

impl View for ControlFields {
    type V = GivenFields;

    open spec fn view(&self) -> GivenFields {
        GivenFields {
            cc_type: optional_text(self.cc_type),
            bandwidth: optional_text(self.bandwidth),
            cwnd_gain: self.cwnd_gain,
            min_window: self.min_window,
            ack_compensate: self.ack_compensate,
        }
    }
}

impl ControlFields {
    /// No field.
    pub fn new() -> (fields: ControlFields)
        ensures
            fields@ == given_fields(Seq::empty()),
    {
        ControlFields {
            cc_type: None,
            bandwidth: None,
            cwnd_gain: None,
            min_window: None,
            ack_compensate: None,
        }
    }

    /// Takes in an entry.
    pub fn set(&mut self, entry: &ControlEntry)
        ensures
            final(self)@ == with_entry(old(self)@, *entry),
    {
        match entry {
            ControlEntry::Type(name) => {
                self.cc_type = Some(name.clone());
            },
            ControlEntry::Bandwidth(bandwidth) => {
                self.bandwidth = Some(bandwidth.clone());
            },
            ControlEntry::CwndGain(gain) => {
                self.cwnd_gain = Some(*gain);
            },
            ControlEntry::MinWindow(bytes) => {
                self.min_window = Some(*bytes);
            },
            ControlEntry::AckCompensate(flag) => {
                self.ack_compensate = Some(*flag);
            },
            ControlEntry::Unknown => {},
        }
    }

    /// The congestion control that the fields choose, if they choose one.
    pub fn resolve(self) -> (control: Option<CongestionControl>)
        ensures
            match control {
                Some(control) => self@.choice() == Some(control@),
                None => self@.choice() is None,
            },
    {
        let (is_default, is_brutal): (bool, bool) = match &self.cc_type {
            Some(name) => {
                let letters = text::characters(name.as_str());
                (
                    text::equals_word(letters.as_slice(), "default"),
                    text::equals_word(letters.as_slice(), "brutal"),
                )
            },
            None => (false, false),
        };
        if is_default {
            return Some(CongestionControl::Default);
        }
        let untyped: bool = self.cc_type.is_none();
        if is_brutal || self.bandwidth.is_some() || self.cwnd_gain.is_some()
            || self.min_window.is_some() || self.ack_compensate.is_some() {
            Some(
                CongestionControl::Brutal(
                    BrutalCongestionConfig {
                        bandwidth: match self.bandwidth {
                            Some(bandwidth) => bandwidth,
                            None => default_brutal_bandwidth(),
                        },
                        cwnd_gain: match self.cwnd_gain {
                            Some(gain) => gain,
                            None => default_brutal_cwnd_gain(),
                        },
                        min_window: match self.min_window {
                            Some(bytes) => bytes,
                            None => default_brutal_min_window(),
                        },
                        ack_compensate: match self.ack_compensate {
                            Some(flag) => flag,
                            None => false,
                        },
                    },
                ),
            )
        } else if untyped {
            Some(CongestionControl::Default)
        } else {
            None
        }
    }
}

/// The choice that a name makes, in any case.
pub open spec fn named_choice(name: Seq<char>) -> Option<ControlChoice> {
    if text::is_word(name, "default"@) {
        Some(ControlChoice::Default)
    } else if text::is_word(name, "brutal"@) {
        Some(ControlChoice::Brutal(default_settings()))
    } else {
        None
    }
}

/// The message for a name that makes no choice.
pub open spec fn unknown_name_text(lowered: Seq<char>) -> Seq<char> {
    "unknown congestion control type: \""@ + lowered
        + "\". Expected \"default\" or \"brutal\""@
}

/// The message for a name, given in lower case, that makes no choice.
pub fn unknown_name_message(lowered: &str) -> (message: String)
    ensures
        message@ == unknown_name_text(lowered@),
{
    let mut message = String::from_str("unknown congestion control type: \"");
    message.append(lowered);
    message.append("\". Expected \"default\" or \"brutal\"");
    message
}

/// The message for a map whose type, given in its quoted form, makes no choice.
pub open spec fn unknown_type_text(quoted: Seq<char>) -> Seq<char> {
    "unknown congestion control type: Some("@ + quoted + ")"@
}

/// The message for a map whose type, given in its quoted form, makes no choice.
pub fn unknown_type_message(quoted: &str) -> (message: String)
    ensures
        message@ == unknown_type_text(quoted@),
{
    let mut message = String::from_str("unknown congestion control type: Some(");
    message.append(quoted);
    message.append(")");
    message
}

/// A congestion control in the form in which it is written.
#[derive(Debug, Clone)]
pub enum SerializedControl {
    /// A name.
    Name(String),
    /// The entries of a map.
    Entries(Vec<ControlEntry>),
}

/// Whether the entries spell out the settings of Brutal.
pub open spec fn spells_out(entries: Seq<ControlEntry>, settings: BrutalSettings) -> bool {
    &&& entries.len() == 5
    &&& entries[0] matches ControlEntry::Type(name) && name@ == "brutal"@
    &&& entries[1] matches ControlEntry::Bandwidth(text) && text@ == settings.bandwidth
    &&& entries[2] == ControlEntry::CwndGain(settings.cwnd_gain)
    &&& entries[3] == ControlEntry::MinWindow(settings.min_window)
    &&& entries[4] == ControlEntry::AckCompensate(settings.ack_compensate)
}

impl CongestionControl {
    /// The congestion control that a name stands for.
    pub fn visit_str(name: &str) -> (result: Result<CongestionControl, String>)
        ensures
            match result {
                Ok(control) => named_choice(name@) == Some(control@),
                Err(message) => {
                    &&& named_choice(name@) is None
                    &&& message@ == unknown_name_text(text::lowercase(name@))
                    &&& vstd::utf8::is_ascii_chars(name@) ==> message@ == unknown_name_text(
                        text::ascii_lowered(name@),
                    )
                },
            },
    {
        let letters = text::characters(name);
        if text::equals_word(letters.as_slice(), "default") {
            Ok(CongestionControl::Default)
        } else if text::equals_word(letters.as_slice(), "brutal") {
            Ok(CongestionControl::Brutal(BrutalCongestionConfig::default()))
        } else {
            Err(unknown_name_message(text::to_lowercase(name).as_str()))
        }
    }

    /// The congestion control that the entries of a map stand for. Of several entries for
    /// one field the last one counts.
    pub fn visit_map(entries: &Vec<ControlEntry>) -> (result: Result<CongestionControl, String>)
        ensures
            match result {
                Ok(control) => given_fields(entries@).choice() == Some(control@),
                Err(message) => {
                    &&& given_fields(entries@).choice() is None
                    &&& message@ == unknown_type_text(
                        text::debug_text(given_fields(entries@).cc_type->0),
                    )
                    &&& text::is_plain(given_fields(entries@).cc_type->0) ==> message@
                        == unknown_type_text("\""@ + given_fields(entries@).cc_type->0 + "\""@)
                },
            },
    {
        let mut fields = ControlFields::new();
        let mut i: usize = 0;
        assert(entries@.take(0) == Seq::<ControlEntry>::empty());
        while i < entries.len()
            invariant
                i <= entries@.len(),
                fields@ == given_fields(entries@.take(i as int)),
            decreases entries@.len() - i,
        {
            assert(entries@.take(i + 1).drop_last() == entries@.take(i as int));
            fields.set(&entries[i]);
            i += 1;
        }
        assert(entries@.take(i as int) == entries@);
        let cc_type = match &fields.cc_type {
            Some(name) => name.clone(),
            None => String::new(),
        };
        match fields.resolve() {
            Some(control) => Ok(control),
            None => Err(unknown_type_message(text::quoted(cc_type.as_str()).as_str())),
        }
    }

    /// The form in which the congestion control is written: a name for the default, a map
    /// with all settings for Brutal.
    pub fn serialized(&self) -> (result: SerializedControl)
        ensures
            match self@ {
                ControlChoice::Default => result matches SerializedControl::Name(name) && name@
                    == "default"@,
                ControlChoice::Brutal(settings) => result matches SerializedControl::Entries(
                    entries,
                ) && spells_out(entries@, settings),
            },
    {
        match self {
            CongestionControl::Default => SerializedControl::Name(String::from_str("default")),
            CongestionControl::Brutal(config) => {
                let mut entries: Vec<ControlEntry> = Vec::new();
                entries.push(ControlEntry::Type(String::from_str("brutal")));
                entries.push(ControlEntry::Bandwidth(config.bandwidth.clone()));
                entries.push(ControlEntry::CwndGain(config.cwnd_gain));
                entries.push(ControlEntry::MinWindow(config.min_window));
                entries.push(ControlEntry::AckCompensate(config.ack_compensate));
                SerializedControl::Entries(entries)
            },
        }
    }
}

/// Settings of a QUIC server.
#[derive(Debug, Clone)]
pub struct ServerQuicConfig {
    pub cert: String,
    pub key: String,
    pub alpn_protocols: NoneOrSome<String>,
    pub client_ca_certs: NoneOrSome<String>,
    pub client_fingerprints: NoneOrSome<String>,
    /// The number of endpoints; 0 stands for the number of threads.
    pub num_endpoints: usize,
    /// Congestion control algorithm. Only used by QUIC-based protocols
    /// (Hysteria2, TUIC v5).
    pub congestion_control: CongestionControl,
}

/// Settings of a QUIC client.
#[derive(Debug, Clone)]
pub struct ClientQuicConfig {
    pub verify: bool,
    pub server_fingerprints: NoneOrSome<String>,
    pub sni_hostname: NoneOrOne<String>,
    pub alpn_protocols: NoneOrSome<String>,
    pub key: Option<String>,
    pub cert: Option<String>,
}

impl Default for ClientQuicConfig {
    fn default() -> (config: Self)
        ensures
            config.verify,
            config.server_fingerprints is Unspecified,
            config.sni_hostname is Unspecified,
            config.alpn_protocols is Unspecified,
            config.key is None,
            config.cert is None,
    {
        ClientQuicConfig {
            verify: true,
            server_fingerprints: NoneOrSome::Unspecified,
            sni_hostname: NoneOrOne::Unspecified,
            alpn_protocols: NoneOrSome::Unspecified,
            key: None,
            cert: None,
        }
    }
}

} // verus!

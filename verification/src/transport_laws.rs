//! What holds of congestion control settings.
use vstd::prelude::*;

use crate::binary64;
use crate::decimal_laws;
use crate::text;
use crate::transport;
use crate::transport::{
    BrutalCongestionConfig, BrutalSettings, CongestionControl, ControlChoice, ControlEntry,
    ControlField, ControlFields, GivenFields,
};

verus! {

/// What is written is read back: the name of the default, and the entries of Brutal.
pub proof fn law_written_choice_reads_back(entries: Seq<ControlEntry>, settings: BrutalSettings)
    requires
        transport::spells_out(entries, settings),
    ensures
        transport::named_choice("default"@) == Some(ControlChoice::Default),
        transport::given_fields(entries).choice() == Some(ControlChoice::Brutal(settings)),
{
    reveal_strlit("default");
    reveal_strlit("brutal");
    assert("default"@.len() == 7 && "brutal"@.len() == 6);
    assert forall|i: int| 0 <= i < 7 implies text::ascii_lower(#[trigger] "default"@[i])
        == "default"@[i] by {
        assert(i == 0 || i == 1 || i == 2 || i == 3 || i == 4 || i == 5 || i == 6);
    }
    assert(text::ascii_lowered("default"@) =~= "default"@);
    lemma_other_word("brutal"@, "default"@);
    let e4 = entries.drop_last();
    let e3 = e4.drop_last();
    let e2 = e3.drop_last();
    let e1 = e2.drop_last();
    let e0 = e1.drop_last();
    assert(e0.len() == 0);
    assert(e1.last() == entries[0] && e2.last() == entries[1] && e3.last() == entries[2]
        && e4.last() == entries[3] && entries.last() == entries[4]);
    reveal_with_fuel(transport::given_fields, 6);
}

/// A text is no word of another length.
proof fn lemma_other_word(s: Seq<char>, word: Seq<char>)
    requires
        s.len() != word.len(),
    ensures
        !text::is_word(s, word),
{
    assert(text::ascii_lowered(s).len() == s.len());
}

/// The case of a name does not matter.
pub proof fn law_name_case(a: Seq<char>, b: Seq<char>, fields: GivenFields)
    requires
        text::ascii_lowered(a) == text::ascii_lowered(b),
    ensures
        transport::named_choice(a) == transport::named_choice(b),
        (GivenFields { cc_type: Some(a), ..fields }).choice() == (GivenFields {
            cc_type: Some(b),
            ..fields
        }).choice(),
{
}

/// A type of `default` makes the default choice, whatever else is given.
pub proof fn law_default_type_wins(fields: GivenFields)
    requires
        fields.has_type("default"@),
    ensures
        fields.choice() == Some(ControlChoice::Default),
{
}

/// A name makes the same choice as a map that gives it as the type and nothing else.
pub proof fn law_name_is_a_map(entry: ControlEntry)
    requires
        entry is Type,
    ensures
        transport::given_fields(seq![entry]).choice() == transport::named_choice(entry->Type_0@),
{
    assert(seq![entry].drop_last() == Seq::<ControlEntry>::empty());
    assert(seq![entry].last() == entry);
    reveal_with_fuel(transport::given_fields, 2);
    reveal_strlit("default");
    reveal_strlit("brutal");
}

/// A map with a field of Brutal needs no type: it makes the choice that the type `brutal`
/// would make.
pub proof fn law_inline_map_is_brutal(fields: GivenFields)
    requires
        fields.cc_type is None,
        fields.has_brutal_field(),
    ensures
        fields.choice() == Some(ControlChoice::Brutal(fields.settings())),
        fields.choice() == (GivenFields { cc_type: Some("brutal"@), ..fields }).choice(),
{
    reveal_strlit("default");
    reveal_strlit("brutal");
    assert("default"@.len() == 7 && "brutal"@.len() == 6);
    lemma_other_word("brutal"@, "default"@);
}

/// Fields that are made up alike go on alike.
proof fn lemma_same_start(a: Seq<ControlEntry>, b: Seq<ControlEntry>, rest: Seq<ControlEntry>)
    requires
        transport::given_fields(a) == transport::given_fields(b),
    ensures
        transport::given_fields(a + rest) == transport::given_fields(b + rest),
    decreases rest.len(),
{
    if rest.len() == 0 {
        assert(a + rest == a);
        assert(b + rest == b);
    } else {
        lemma_same_start(a, b, rest.drop_last());
        assert((a + rest).drop_last() == a + rest.drop_last());
        assert((b + rest).drop_last() == b + rest.drop_last());
        assert((a + rest).last() == rest.last());
        assert((b + rest).last() == rest.last());
    }
}

/// Entries with unknown keys change nothing.
pub proof fn law_unknown_entries_are_ignored(before: Seq<ControlEntry>, rest: Seq<ControlEntry>)
    ensures
        transport::given_fields(before.push(ControlEntry::Unknown) + rest)
            == transport::given_fields(before + rest),
{
    let long = before.push(ControlEntry::Unknown);
    assert(long.drop_last() == before);
    assert(long.last() == ControlEntry::Unknown);
    lemma_same_start(long, before, rest);
}

/// Of two entries for one field the later one counts.
pub proof fn law_later_entry_counts(
    before: Seq<ControlEntry>,
    a: ControlEntry,
    b: ControlEntry,
    rest: Seq<ControlEntry>,
)
    requires
        a.field() == b.field(),
    ensures
        transport::given_fields(before.push(a).push(b) + rest) == transport::given_fields(
            before.push(b) + rest,
        ),
{
    lemma_two_entries(before, a, b);
    assert(before.push(b).drop_last() == before);
    lemma_same_start(before.push(a).push(b), before.push(b), rest);
}

/// The order of entries for different fields does not matter.
pub proof fn law_entry_order(
    before: Seq<ControlEntry>,
    a: ControlEntry,
    b: ControlEntry,
    rest: Seq<ControlEntry>,
)
    requires
        a.field() != b.field(),
    ensures
        transport::given_fields(before.push(a).push(b) + rest) == transport::given_fields(
            before.push(b).push(a) + rest,
        ),
{
    lemma_two_entries(before, a, b);
    lemma_two_entries(before, b, a);
    lemma_same_start(before.push(a).push(b), before.push(b).push(a), rest);
}

proof fn lemma_two_entries(before: Seq<ControlEntry>, a: ControlEntry, b: ControlEntry)
    ensures
        transport::given_fields(before.push(a).push(b)) == transport::with_entry(
            transport::with_entry(transport::given_fields(before), a),
            b,
        ),
{
    assert(before.push(a).push(b).drop_last() == before.push(a));
    assert(before.push(a).drop_last() == before);
    assert(transport::given_fields(before.push(a)) == transport::with_entry(
        transport::given_fields(before),
        a,
    ));
}

/// Equality of choices is symmetric and transitive; a choice equals itself unless its gain
/// is NaN.
pub proof fn law_equality(x: ControlChoice, y: ControlChoice, z: ControlChoice)
    ensures
        transport::same_choice(x, y) == transport::same_choice(y, x),
        transport::same_choice(x, y) && transport::same_choice(y, z) ==> transport::same_choice(
            x,
            z,
        ),
        transport::same_choice(x, x) == !(x matches ControlChoice::Brutal(settings)
            && settings.cwnd_gain.is_nan()),
{
}

/// Each setting depends on its own field alone: it is what is given, and the documented
/// default where nothing is.
pub proof fn law_settings_by_field(fields: GivenFields)
    ensures
        ({
            let settings = fields.settings();
            &&& fields.bandwidth matches Some(text) ==> settings.bandwidth == text
            &&& fields.bandwidth is None ==> settings.bandwidth == "1m"@
            &&& fields.cwnd_gain matches Some(gain) ==> settings.cwnd_gain == gain
            &&& fields.cwnd_gain is None ==> settings.cwnd_gain.bits == 0x3ff4_0000_0000_0000 && 4
                * settings.cwnd_gain.units() == 5 * binary64::one_units()
            &&& fields.min_window matches Some(bytes) ==> settings.min_window == bytes
            &&& fields.min_window is None ==> settings.min_window == 16_384
            &&& fields.ack_compensate matches Some(flag) ==> settings.ack_compensate == flag
            &&& fields.ack_compensate is None ==> !settings.ack_compensate
        }),
{
    crate::congestion_control::lemma_default_gain();
    crate::event_laws::lemma_gain_units();
}

/// The settings of a bare name are the defaults: those of a map without fields.
pub proof fn law_default_settings()
    ensures
        transport::default_settings().bandwidth == "1m"@,
        transport::default_settings().cwnd_gain.bits == 0x3ff4_0000_0000_0000,
        4 * transport::default_settings().cwnd_gain.units() == 5 * binary64::one_units(),
        transport::default_settings().min_window == 16_384,
        !transport::default_settings().ack_compensate,
        transport::default_settings() == transport::given_fields(Seq::empty()).settings(),
{
    crate::congestion_control::lemma_default_gain();
    crate::event_laws::lemma_gain_units();
}

/// What the fields of a map choose, by its type and by whether a field of Brutal is given.
pub proof fn law_choice(fields: GivenFields)
    ensures
        ({
            let typed = |name: Seq<char>|
                fields.cc_type matches Some(given) && decimal_laws::spells(given, name);
            let sized = fields.bandwidth is Some || fields.cwnd_gain is Some || fields.min_window
                is Some || fields.ack_compensate is Some;
            &&& typed("default"@) ==> fields.choice() == Some(ControlChoice::Default)
            &&& typed("brutal"@) ==> fields.choice() == Some(
                ControlChoice::Brutal(fields.settings()),
            )
            &&& !typed("default"@) && sized ==> fields.choice() == Some(
                ControlChoice::Brutal(fields.settings()),
            )
            &&& fields.cc_type is None && !sized ==> fields.choice() == Some(ControlChoice::Default)
            &&& fields.cc_type is Some && !typed("default"@) && !typed("brutal"@) && !sized
                ==> fields.choice() is None
        }),
{
    reveal_strlit("default");
    reveal_strlit("brutal");
    assert("default"@.len() == 7 && "brutal"@.len() == 6);
    if let Some(given) = fields.cc_type {
        decimal_laws::law_words(given, "default"@);
        decimal_laws::law_words(given, "brutal"@);
    }
}

/// What a name chooses.
pub proof fn law_named_choice(name: Seq<char>)
    ensures
        decimal_laws::spells(name, "default"@) ==> transport::named_choice(name) == Some(
            ControlChoice::Default,
        ),
        decimal_laws::spells(name, "brutal"@) ==> transport::named_choice(name) == Some(
            ControlChoice::Brutal(transport::default_settings()),
        ),
        !decimal_laws::spells(name, "default"@) && !decimal_laws::spells(name, "brutal"@)
            ==> transport::named_choice(name) is None,
{
    reveal_strlit("default");
    reveal_strlit("brutal");
    assert("default"@.len() == 7 && "brutal"@.len() == 6);
    decimal_laws::law_words(name, "default"@);
    decimal_laws::law_words(name, "brutal"@);
}

/// A field holds what its last entry says, whatever other entries there are; a field without
/// an entry holds nothing.
pub proof fn law_last_entry_is_given(entries: Seq<ControlEntry>, k: int)
    requires
        0 <= k < entries.len(),
        forall|j: int|
            k < j < entries.len() ==> (#[trigger] entries[j]).field() != entries[k].field(),
    ensures
        ({
            let fields = transport::given_fields(entries);
            &&& entries[k] matches ControlEntry::Type(name) ==> fields.cc_type == Some(name@)
            &&& entries[k] matches ControlEntry::Bandwidth(text) ==> fields.bandwidth == Some(text@)
            &&& entries[k] matches ControlEntry::CwndGain(gain) ==> fields.cwnd_gain == Some(gain)
            &&& entries[k] matches ControlEntry::MinWindow(bytes) ==> fields.min_window == Some(
                bytes,
            )
            &&& entries[k] matches ControlEntry::AckCompensate(flag) ==> fields.ack_compensate
                == Some(flag)
        }),
    decreases entries.len(),
{
    let rest = entries.drop_last();
    if k < entries.len() - 1 {
        assert forall|j: int| k < j < rest.len() implies (#[trigger] rest[j]).field()
            != rest[k].field() by {
            assert(rest[j] == entries[j] && rest[k] == entries[k]);
        }
        law_last_entry_is_given(rest, k);
        assert(rest[k] == entries[k]);
        assert(entries.last() == entries[entries.len() - 1]);
        assert(entries[entries.len() - 1].field() != entries[k].field());
    } else {
        assert(entries.last() == entries[k]);
    }
}

/// A field for which there is no entry is not given.
pub proof fn law_missing_entry_is_not_given(entries: Seq<ControlEntry>)
    ensures
        ({
            let fields = transport::given_fields(entries);
            let none = |field: ControlField|
                forall|i: int| 0 <= i < entries.len() ==> (#[trigger] entries[i]).field() != field;
            &&& none(ControlField::Type) ==> fields.cc_type is None
            &&& none(ControlField::Bandwidth) ==> fields.bandwidth is None
            &&& none(ControlField::CwndGain) ==> fields.cwnd_gain is None
            &&& none(ControlField::MinWindow) ==> fields.min_window is None
            &&& none(ControlField::AckCompensate) ==> fields.ack_compensate is None
        }),
    decreases entries.len(),
{
    if entries.len() > 0 {
        let rest = entries.drop_last();
        law_missing_entry_is_not_given(rest);
        assert forall|i: int| 0 <= i < rest.len() implies (#[trigger] rest[i]) == entries[i] by {}
        assert(entries.last() == entries[entries.len() - 1]);
        assert(entries[entries.len() - 1].field() == entries.last().field());
    }
}

/// The kind of an entry is its field.
pub proof fn law_entry_fields(entry: ControlEntry)
    ensures
        entry is Type <==> entry.field() == ControlField::Type,
        entry is Bandwidth <==> entry.field() == ControlField::Bandwidth,
        entry is CwndGain <==> entry.field() == ControlField::CwndGain,
        entry is MinWindow <==> entry.field() == ControlField::MinWindow,
        entry is AckCompensate <==> entry.field() == ControlField::AckCompensate,
        entry is Unknown <==> entry.field() == ControlField::Unknown,
{
}

/// The key of a field is its name, letter for letter; other keys name no field.
pub proof fn law_keys(key: Seq<char>)
    ensures
        key == "type"@ <==> transport::field_of_key(key) == ControlField::Type,
        key == "bandwidth"@ <==> transport::field_of_key(key) == ControlField::Bandwidth,
        key == "cwnd_gain"@ <==> transport::field_of_key(key) == ControlField::CwndGain,
        key == "min_window"@ <==> transport::field_of_key(key) == ControlField::MinWindow,
        key == "ack_compensate"@ <==> transport::field_of_key(key) == ControlField::AckCompensate,
{
    reveal_strlit("type");
    reveal_strlit("bandwidth");
    reveal_strlit("cwnd_gain");
    reveal_strlit("min_window");
    reveal_strlit("ack_compensate");
    assert("type"@.len() == 4 && "bandwidth"@.len() == 9 && "cwnd_gain"@.len() == 9);
    assert("min_window"@.len() == 10 && "ack_compensate"@.len() == 14);
    assert("bandwidth"@[0] == 'b' && "cwnd_gain"@[0] == 'c');
}

/// Brutal is written as its type and its four settings, in this order.
pub proof fn law_written_entries(entries: Seq<ControlEntry>, settings: BrutalSettings)
    ensures
        transport::spells_out(entries, settings) <==> {
            &&& entries.len() == 5
            &&& entries[0] matches ControlEntry::Type(name) && name@ == "brutal"@
            &&& entries[1] matches ControlEntry::Bandwidth(text) && text@ == settings.bandwidth
            &&& entries[2] matches ControlEntry::CwndGain(gain) && gain == settings.cwnd_gain
            &&& entries[3] matches ControlEntry::MinWindow(bytes) && bytes == settings.min_window
            &&& entries[4] matches ControlEntry::AckCompensate(flag) && flag
                == settings.ack_compensate
        },
{
}

/// Choices are equal where they are of one kind and all settings are; gains are compared as
/// numbers.
pub proof fn law_equality_by_setting(a: BrutalSettings, b: BrutalSettings)
    ensures
        transport::same_choice(ControlChoice::Default, ControlChoice::Default),
        !transport::same_choice(ControlChoice::Default, ControlChoice::Brutal(a)),
        !transport::same_choice(ControlChoice::Brutal(a), ControlChoice::Default),
        transport::same_choice(ControlChoice::Brutal(a), ControlChoice::Brutal(b)) <==> {
            let (x, y) = (a.cwnd_gain, b.cwnd_gain);
            &&& a.bandwidth == b.bandwidth
            &&& !x.is_nan() && !y.is_nan() && (x.bits == y.bits || (x.is_zero() && y.is_zero()))
            &&& a.min_window == b.min_window
            &&& a.ack_compensate == b.ack_compensate
        },
        transport::same_settings(a, b) == transport::same_choice(
            ControlChoice::Brutal(a),
            ControlChoice::Brutal(b),
        ),
{
}

/// The messages for names and types that choose nothing.
pub proof fn law_messages(shown: Seq<char>)
    ensures
        transport::unknown_name_text(shown) == "unknown congestion control type: \""@ + shown
            + "\". Expected \"default\" or \"brutal\""@,
        transport::unknown_type_text(shown) == "unknown congestion control type: Some("@ + shown
            + ")"@,
{
}

/// What the types hold is what their views say.
pub proof fn law_views(
    config: BrutalCongestionConfig,
    control: CongestionControl,
    fields: ControlFields,
)
    ensures
        config@.bandwidth == config.bandwidth@,
        config@.cwnd_gain == config.cwnd_gain,
        config@.min_window == config.min_window,
        config@.ack_compensate == config.ack_compensate,
        control is Default <==> control@ == ControlChoice::Default,
        control matches CongestionControl::Brutal(inner) ==> control@ == ControlChoice::Brutal(
            inner@,
        ),
        fields.cc_type matches Some(name) ==> fields@.cc_type == Some(name@),
        fields.cc_type is None ==> fields@.cc_type is None,
        fields.bandwidth matches Some(text) ==> fields@.bandwidth == Some(text@),
        fields.bandwidth is None ==> fields@.bandwidth is None,
        fields@.cwnd_gain == fields.cwnd_gain,
        fields@.min_window == fields.min_window,
        fields@.ack_compensate == fields.ack_compensate,
{
}

} // verus!

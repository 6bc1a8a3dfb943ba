//! Audio outputs: which there are, and how one is opened.

use vstd::prelude::*;
use vstd::string::*;

use crate::text::{copy_text, same_text};

verus! {

/// An audio output.
#[derive(Debug, Clone, PartialEq, Eq)]
pub struct AudioOutputInfo {
    /// The name that the system gives the device.
    pub name: String,
    /// Whether it is the system's default output.
    pub is_default: bool,
}

/// How a stream runs.
#[derive(Debug, Clone, Copy, PartialEq, Eq, Structural)]
pub struct AudioSpec {
    /// Frames in a second.
    pub sample_rate: u32,
    /// Channels in a frame.
    pub channels: u16,
}

// ---------------------------------------------------------------------------
// Listing
// ---------------------------------------------------------------------------

/// What a list of outputs says.
pub open spec fn output_views(outputs: Seq<AudioOutputInfo>) -> Seq<(Seq<char>, bool)> {
    outputs.map_values(|o: AudioOutputInfo| (o.name@, o.is_default))
}

/// Whether a device is the default one, whose name is empty where there is
/// none.
pub open spec fn is_default_name(name: Seq<char>, default_name: Seq<char>) -> bool {
    default_name.len() > 0 && name == default_name
}

/// The outputs among named devices that are the default one, or are not.
pub open spec fn outputs_where(
    names: Seq<Option<String>>,
    default_name: Seq<char>,
    default: bool,
) -> Seq<(Seq<char>, bool)>
    decreases names.len(),
{
    if names.len() == 0 {
        Seq::empty()
    } else {
        let before = outputs_where(names.drop_last(), default_name, default);
        match names.last() {
            Some(name) => if is_default_name(name@, default_name) == default {
                before.push((name@, default))
            } else {
                before
            },
            None => before,
        }
    }
}

fn collect_outputs(names: &Vec<Option<String>>, default_name: &str, default: bool) -> (r: Vec<
    AudioOutputInfo,
>)
    ensures
        output_views(r@) == outputs_where(names@, default_name@, default),
{
    let mut out: Vec<AudioOutputInfo> = Vec::new();
    let n: usize = names.len();
    assert(names@.take(0) =~= Seq::empty());
    assert(output_views(out@) =~= Seq::empty());
    for i in 0..n
        invariant
            n == names.len(),
            output_views(out@) == outputs_where(names@.take(i as int), default_name@, default),
    {
        let ghost before = output_views(out@);
        assert(names@.take(i + 1).drop_last() =~= names@.take(i as int));
        if let Some(name) = &names[i] {
            let is_default = !default_name.is_empty() && same_text(name.as_str(), default_name);
            if is_default == default {
                out.push(AudioOutputInfo { name: copy_text(name), is_default });
                assert(output_views(out@) =~= before.push((name@, default)));
            }
        }
    }
    assert(names@.take(n as int) =~= names@);
    out
}

/// The outputs among devices, of which some may have no name that can be read:
/// those are left out. The default output comes first.
pub fn list_outputs(names: &Vec<Option<String>>, default_name: &str) -> (r: Vec<
    AudioOutputInfo,
>)
    ensures
        output_views(r@) == outputs_where(names@, default_name@, true) + outputs_where(
            names@,
            default_name@,
            false,
        ),
{
    let mut out = collect_outputs(names, default_name, true);
    let mut rest = collect_outputs(names, default_name, false);
    let ghost a = out@;
    let ghost b = rest@;
    out.append(&mut rest);
    assert(output_views(out@) =~= output_views(a) + output_views(b));
    out
}

// ---------------------------------------------------------------------------
// Opening
// ---------------------------------------------------------------------------

/// A configuration that a device supports, over a range of rates.
#[derive(Debug, Clone, Copy, PartialEq, Eq, Structural)]
pub struct SupportedConfig {
    pub min_sample_rate: u32,
    pub max_sample_rate: u32,
    pub channels: u16,
    /// Whether its samples are single-precision numbers.
    pub is_float: bool,
}

/// The configuration that a device has by default.
#[derive(Debug, Clone, Copy, PartialEq, Eq, Structural)]
pub struct DefaultConfig {
    pub sample_rate: u32,
    pub channels: u16,
    /// Whether its samples are single-precision numbers.
    pub is_float: bool,
}

/// The configuration that is used.
#[derive(Debug, Clone, Copy, PartialEq, Eq, Structural)]
pub enum ChosenConfig {
    /// The device's default.
    Default(AudioSpec),
    /// A supported one, by its number, at the rate in the spec.
    Supported(usize, AudioSpec),
    /// None: the device does not take single-precision samples.
    Unsupported,
}

/// Whether a configuration can be used at a rate.
pub open spec fn config_fits(c: SupportedConfig, rate: u32) -> bool {
    c.is_float && c.min_sample_rate <= rate <= c.max_sample_rate
}

/// Whether one of the configurations takes single-precision samples.
pub open spec fn some_float(supported: Seq<SupportedConfig>) -> bool {
    exists|i: int| 0 <= i < supported.len() && (#[trigger] supported[i]).is_float
}

/// The number of the first configuration that can be used at a rate; how many
/// there are where none can.
pub open spec fn first_fit(supported: Seq<SupportedConfig>, rate: u32) -> nat
    decreases supported.len(),
{
    if supported.len() == 0 || config_fits(supported[0], rate) {
        0
    } else {
        1 + first_fit(supported.skip(1), rate)
    }
}

/// The default configuration as a spec.
pub open spec fn default_spec(default: DefaultConfig) -> AudioSpec {
    AudioSpec { sample_rate: default.sample_rate, channels: default.channels }
}

/// The configuration that is used: the first that supports the preferred rate,
/// else the default.
pub open spec fn config_for(
    supported: Seq<SupportedConfig>,
    default: DefaultConfig,
    preferred: Option<u32>,
) -> ChosenConfig {
    if !default.is_float && !some_float(supported) {
        ChosenConfig::Unsupported
    } else {
        match preferred {
            Some(rate) => {
                let i = first_fit(supported, rate);
                if i < supported.len() {
                    ChosenConfig::Supported(
                        i as usize,
                        AudioSpec { sample_rate: rate, channels: supported[i as int].channels },
                    )
                } else {
                    ChosenConfig::Default(default_spec(default))
                }
            },
            None => ChosenConfig::Default(default_spec(default)),
        }
    }
}

/// The configuration with which a device is opened.
pub fn choose_config(
    supported: &Vec<SupportedConfig>,
    default: DefaultConfig,
    preferred: Option<u32>,
) -> (r: ChosenConfig)
    ensures
        r == config_for(supported@, default, preferred),
{
    let n: usize = supported.len();
    let mut float = false;
    for i in 0..n
        invariant
            n == supported.len(),
            float == exists|j: int| 0 <= j < i && (#[trigger] supported@[j]).is_float,
    {
        if supported[i].is_float {
            float = true;
        }
    }
    if !default.is_float && !float {
        return ChosenConfig::Unsupported;
    }
    if let Some(rate) = preferred {
        let mut i: usize = 0;
        assert(supported@.skip(0) =~= supported@);
        while i < n
            invariant
                n == supported.len(),
                i <= n,
                preferred == Some(rate),
                default.is_float || some_float(supported@),
                i + first_fit(supported@.skip(i as int), rate) == first_fit(supported@, rate),
            decreases n - i,
        {
            let c = supported[i];
            assert(supported@.skip(i as int).skip(1) =~= supported@.skip(i + 1));
            if c.is_float && c.min_sample_rate <= rate && rate <= c.max_sample_rate {
                return ChosenConfig::Supported(
                    i,
                    AudioSpec { sample_rate: rate, channels: c.channels },
                );
            }
            i = i + 1;
        }
    }
    ChosenConfig::Default(
        AudioSpec { sample_rate: default.sample_rate, channels: default.channels },
    )
}

/// Where there is a default output, it is the first of the list.
pub proof fn law_default_output_comes_first(names: Seq<Option<String>>, default_name: Seq<char>)
    requires
        outputs_where(names, default_name, true).len() > 0,
    ensures
        ({
            let all = outputs_where(names, default_name, true) + outputs_where(
                names,
                default_name,
                false,
            );
            all[0] == (default_name, true)
        }),
    decreases names.len(),
{
    let rest = names.drop_last();
    if outputs_where(rest, default_name, true).len() > 0 {
        law_default_output_comes_first(rest, default_name);
    }
}

/// The rate of the configuration that is used is the preferred one or the
/// default one.
pub proof fn law_rate_is_preferred_or_default(
    supported: Seq<SupportedConfig>,
    default: DefaultConfig,
    preferred: Option<u32>,
)
    ensures
        (match config_for(supported, default, preferred) {
            ChosenConfig::Default(spec) => spec == default_spec(default),
            ChosenConfig::Supported(_, spec) => Some(spec.sample_rate) == preferred,
            ChosenConfig::Unsupported => !default.is_float,
        }),
{
}

/// Whether an output stands for a device: it has its name, and is marked where
/// that is the name of the default output.
pub open spec fn stands_for(o: AudioOutputInfo, name: Option<String>, default_name: Seq<char>) -> bool {
    name matches Some(n) && o.name@ == n@ && o.is_default == (n@ == default_name
        && default_name.len() > 0)
}

proof fn lemma_outputs_where(names: Seq<Option<String>>, default_name: Seq<char>, default: bool)
    ensures
        ({
            let all = outputs_where(names, default_name, default);
            &&& forall|i: int|
                0 <= i < all.len() ==> (#[trigger] all[i]).1 == default && exists|k: int|
                    0 <= k < names.len() && (#[trigger] names[k] matches Some(n) && n@ == all[i].0
                        && (default_name.len() > 0 && n@ == default_name) == default)
            &&& forall|k: int|
                0 <= k < names.len() ==> (#[trigger] names[k] matches Some(n) ==> (
                default_name.len() > 0 && n@ == default_name) == default ==> all.contains(
                    (n@, default),
                ))
        }),
    decreases names.len(),
{
    if names.len() > 0 {
        let rest = names.drop_last();
        let before = outputs_where(rest, default_name, default);
        let all = outputs_where(names, default_name, default);
        lemma_outputs_where(rest, default_name, default);
        assert forall|i: int| 0 <= i < all.len() implies (#[trigger] all[i]).1 == default && exists|
            k: int,
        |
            0 <= k < names.len() && (#[trigger] names[k] matches Some(n) && n@ == all[i].0 && (
            default_name.len() > 0 && n@ == default_name) == default) by {
            if i < before.len() {
                assert(before[i] == all[i]);
                let k = choose|k: int|
                    0 <= k < rest.len() && (#[trigger] rest[k] matches Some(n) && n@ == before[i].0
                        && (default_name.len() > 0 && n@ == default_name) == default);
                assert(names[k] == rest[k]);
            } else {
                assert(names[names.len() - 1] is Some);
            }
        }
        assert forall|k: int| 0 <= k < names.len() implies (#[trigger] names[k] matches Some(n) ==> (
        default_name.len() > 0 && n@ == default_name) == default ==> all.contains(
            (n@, default),
        )) by {
            if let Some(n) = names[k] {
                if (default_name.len() > 0 && n@ == default_name) == default {
                    if k < rest.len() {
                        assert(rest[k] == names[k]);
                        let i = choose|i: int| 0 <= i < before.len() && before[i] == (n@, default);
                        assert(all[i] == (n@, default));
                    } else {
                        assert(all[all.len() - 1] == (n@, default));
                    }
                }
            }
        }
    }
}

/// Every device with a name is listed under it, and nothing else is. Outputs are
/// marked as the default exactly where they have its name, and those come first.
pub proof fn law_outputs_are_the_named_devices(
    names: Seq<Option<String>>,
    default_name: Seq<char>,
    outputs: Seq<AudioOutputInfo>,
)
    requires
        output_views(outputs) == outputs_where(names, default_name, true) + outputs_where(
            names,
            default_name,
            false,
        ),
    ensures
        forall|i: int|
            0 <= i < outputs.len() ==> exists|k: int|
                0 <= k < names.len() && stands_for(
                    #[trigger] outputs[i],
                    #[trigger] names[k],
                    default_name,
                ),
        forall|k: int|
            0 <= k < names.len() && (#[trigger] names[k]) is Some ==> exists|i: int|
                0 <= i < outputs.len() && stands_for(
                    #[trigger] outputs[i],
                    names[k],
                    default_name,
                ),
        forall|i: int, j: int|
            0 <= i < j < outputs.len() && (#[trigger] outputs[j]).is_default ==> (
            #[trigger] outputs[i]).is_default,
{
    let yes = outputs_where(names, default_name, true);
    let no = outputs_where(names, default_name, false);
    let shown = output_views(outputs);
    lemma_outputs_where(names, default_name, true);
    lemma_outputs_where(names, default_name, false);
    assert(shown.len() == outputs.len());
    assert forall|i: int| 0 <= i < outputs.len() implies exists|k: int|
        0 <= k < names.len() && stands_for(
            #[trigger] outputs[i],
            #[trigger] names[k],
            default_name,
        ) by {
        assert(shown[i] == (outputs[i].name@, outputs[i].is_default));
        let default = i < yes.len();
        let said = if default {
            yes[i]
        } else {
            no[i - yes.len()]
        };
        assert(said == shown[i]);
        let k = choose|k: int|
            0 <= k < names.len() && (#[trigger] names[k] matches Some(n) && n@ == said.0 && (
            default_name.len() > 0 && n@ == default_name) == default);
        assert(stands_for(outputs[i], names[k], default_name));
    }
    assert forall|k: int| 0 <= k < names.len() && (#[trigger] names[k]) is Some implies exists|
        i: int,
    |
        0 <= i < outputs.len() && stands_for(#[trigger] outputs[i], names[k], default_name) by {
        let n = names[k]->0;
        let default = default_name.len() > 0 && n@ == default_name;
        if default {
            let i = choose|i: int| 0 <= i < yes.len() && yes[i] == (n@, true);
            assert(shown[i] == (outputs[i].name@, outputs[i].is_default));
            assert(stands_for(outputs[i], names[k], default_name));
        } else {
            let i = choose|i: int| 0 <= i < no.len() && no[i] == (n@, false);
            assert(shown[yes.len() + i] == no[i]);
            assert(shown[yes.len() + i] == (
                outputs[yes.len() + i].name@,
                outputs[yes.len() + i].is_default,
            ));
            assert(stands_for(outputs[yes.len() + i], names[k], default_name));
        }
    }
    assert forall|i: int, j: int|
        0 <= i < j < outputs.len() && (#[trigger] outputs[j]).is_default implies (
    #[trigger] outputs[i]).is_default by {
        assert(shown[j] == (outputs[j].name@, outputs[j].is_default));
        assert(shown[i] == (outputs[i].name@, outputs[i].is_default));
        if j >= yes.len() {
            assert(shown[j] == no[j - yes.len()]);
        }
        assert(shown[i] == yes[i]);
    }
}

proof fn lemma_first_fit(supported: Seq<SupportedConfig>, rate: u32)
    ensures
        first_fit(supported, rate) <= supported.len(),
        first_fit(supported, rate) < supported.len() ==> config_fits(
            supported[first_fit(supported, rate) as int],
            rate,
        ),
        forall|j: int|
            0 <= j < first_fit(supported, rate) ==> !config_fits(#[trigger] supported[j], rate),
    decreases supported.len(),
{
    if supported.len() > 0 && !config_fits(supported[0], rate) {
        let tail = supported.skip(1);
        lemma_first_fit(tail, rate);
        assert forall|j: int| 0 <= j < first_fit(supported, rate) implies !config_fits(
            #[trigger] supported[j],
            rate,
        ) by {
            if j > 0 {
                assert(tail[j - 1] == supported[j]);
            }
        }
    }
}

/// A device is opened at the preferred rate wherever one of its configurations
/// with single-precision samples takes that rate: the first such one is used, with
/// its own number of channels. Otherwise its default is used, with the default rate
/// and channels. Only a device without single-precision samples is refused.
pub proof fn law_device_is_opened_as_preferred(
    supported: Seq<SupportedConfig>,
    default: DefaultConfig,
    preferred: Option<u32>,
    j: int,
)
    requires
        0 <= j < supported.len() <= usize::MAX,
    ensures
        ({
            let s = supported[j];
            let takes = s.is_float && (match preferred {
                Some(rate) => s.min_sample_rate <= rate && rate <= s.max_sample_rate,
                None => false,
            });
            match config_for(supported, default, preferred) {
                ChosenConfig::Supported(i, spec) => {
                    &&& i < supported.len()
                    &&& Some(spec.sample_rate) == preferred
                    &&& spec.channels == supported[i as int].channels
                    &&& j < i ==> !takes
                    &&& j == i ==> takes
                },
                ChosenConfig::Default(spec) => {
                    &&& !takes
                    &&& spec.sample_rate == default.sample_rate
                    &&& spec.channels == default.channels
                },
                ChosenConfig::Unsupported => !default.is_float && !s.is_float,
            }
        }),
        default.is_float ==> !(config_for(supported, default, preferred) is Unsupported),
        supported[j].is_float ==> !(config_for(supported, default, preferred) is Unsupported),
{
    if let Some(rate) = preferred {
        lemma_first_fit(supported, rate);
    }
}

/// Devices that are listed behind others are shown behind them, among the default ones
/// and among the rest.
pub proof fn law_outputs_keep_their_order(
    a: Seq<Option<String>>,
    b: Seq<Option<String>>,
    default_name: Seq<char>,
    default: bool,
)
    ensures
        outputs_where(a + b, default_name, default) == outputs_where(a, default_name, default)
            + outputs_where(b, default_name, default),
    decreases b.len(),
{
    if b.len() == 0 {
        assert(a + b =~= a);
        assert(outputs_where(b, default_name, default) =~= Seq::empty());
        assert(outputs_where(a + b, default_name, default) =~= outputs_where(
            a,
            default_name,
            default,
        ) + outputs_where(b, default_name, default));
    } else {
        law_outputs_keep_their_order(a, b.drop_last(), default_name, default);
        assert((a + b).drop_last() =~= a + b.drop_last());
        assert(outputs_where(a + b, default_name, default) =~= outputs_where(
            a,
            default_name,
            default,
        ) + outputs_where(b, default_name, default));
    }
}

} // verus!

//! Chromagrain: an audiovisual granular sampling engine.
//!
//! One grain scheduler emits [`grain::GrainEvent`]s that both the audio renderer
//! ([`audio::render_grains_audio`]) and the visual compositor
//! ([`video::composite_grains_frame`]) consume. Audio and visual grains are the same
//! object, so the two modalities always correspond:
//!
//! | grain field  | audio                   | video                        |
//! |--------------|-------------------------|------------------------------|
//! | onset/dur    | when it sounds          | when it appears              |
//! | envelope     | amplitude window        | opacity window               |
//! | pitch_ratio  | resampling ratio        | patch playback rate + hue    |
//! | pan          | stereo position         | horizontal position          |
//! | source_pos   | waveform read position  | video read position          |
//! | reverse      | backwards audio         | backwards video              |
//!
//! Numbers are IEEE 754 bit patterns ([`num`]); what may round is computed by a
//! [`calc::Calc`] that the engine's user supplies. The layers on top of that:
//!
//! * [`music`], [`dsp`], [`auto`], [`grain`], [`seq`]: keys, filters, automation, grains
//!   and step patterns
//! * [`audio`], [`video`], [`fx`], [`fx_audio`], [`fx_video`], [`spectral`], [`fft`],
//!   [`stream`]: sound, frames, and the effects on both
//! * [`timeline`], [`render`], [`realtime`]: projects, and how they are rendered and played
//! * [`synth`], [`stretch`], [`media`]: where sources come from
//! * [`script`], [`edit`], [`midi`]: how a project is changed
//! * [`playback`], [`preview`]: what the audio device and the GPU are handed
//!
//! Contracts hold for every such arithmetic. What follows where it is IEEE 754's, rounding
//! to nearest ([`rounding`], [`rounding_double`]), is stated apart: of keys and ratios in
//! [`tuning`], of free-running grains in [`clouds`], of colour filters in [`masks`], of
//! stretched lengths in [`stretch`], of soft clipping in [`levels`], of windows that nothing
//! reaches in [`stillness`] and [`darkness`], of streams in [`clocks`], of saved sounds in
//! [`saved`]; and what follows where its logarithms undo its powers besides, in
//! [`intonation`], or where its sines are near the roots of unity ([`plane`]), in
//! [`spectra`] and [`washes`].
//!
//! What the numbers come to, as reals ([`reals`]), is stated apart as well: of sound in
//! [`filters`], [`heard`], [`fades`], [`echoes`], [`tones`], [`pitches`] and [`windows`], of
//! pictures in [`seen`], [`shades`], [`blends`], [`hues`] and [`glows`], of grains and steps in
//! [`spread`], [`timing`] and [`steps`], of tempo and levels in [`pace`], of what is read at
//! another speed in [`streams`], of compression in [`crunches`], and of knobs, grids and sizes
//! in [`gauges`].
use vstd::prelude::*;

pub mod audio;
pub mod auto;
pub mod blends;
pub mod calc;
pub mod clocks;
pub mod clouds;
pub mod crunches;
pub mod darkness;
pub mod dsp;
pub mod echoes;
pub mod edit;
pub mod fades;
pub mod fft;
pub mod figures;
pub mod filters;
pub mod fx;
pub mod fx_audio;
pub mod fx_video;
pub mod gauges;
pub mod glows;
pub mod grain;
pub mod heard;
pub mod hues;
pub mod intonation;
pub mod levels;
pub mod masks;
pub mod media;
pub mod midi;
pub mod music;
pub mod num;
pub mod pace;
pub mod pitches;
pub mod plane;
pub mod playback;
pub mod preview;
pub mod reals;
pub mod realtime;
pub mod render;
pub mod rounding;
pub mod rounding_double;
pub mod saved;
pub mod script;
pub mod seen;
pub mod seq;
pub mod shades;
pub mod spectra;
pub mod spectral;
pub mod spread;
pub mod steps;
pub mod stillness;
pub mod stream;
pub mod streams;
pub mod stretch;
pub mod synth;
pub mod text;
pub mod timeline;
pub mod timing;
pub mod tones;
pub mod tuning;
pub mod video;
pub mod washes;
pub mod windows;

verus! {

} // verus!

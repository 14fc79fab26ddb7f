//! What a session knows of its peer and of the streams it carries.
//!
//! A session is one peer of a connection, made once the handshake is over;
//! each connection has a session of its own.

use crate::amf::{PropertyMap, PropertyValue, Scalar};
use crate::ieee754::single::Single;
use crate::ieee754::Double;
use vstd::prelude::*;

pub mod client;
pub mod metadata_laws;

verus! {

/// What a stream may advertise of itself when it is published. A field that
/// is `None` was not advertised.
#[derive(Clone, Debug, PartialEq)]
pub struct StreamMetadata {
    pub video_width: Option<u32>,
    pub video_height: Option<u32>,
    pub video_codec: Option<Double>,
    pub video_frame_rate: Option<Single>,
    pub video_bitrate_kbps: Option<u32>,
    pub audio_codec: Option<Double>,
    pub audio_bitrate_kbps: Option<u32>,
    pub audio_sample_rate: Option<u32>,
    pub audio_channels: Option<u32>,
    pub audio_is_stereo: Option<bool>,
    pub encoder: Option<String>,
}

/// A [`StreamMetadata`] with the encoder's name as a sequence of characters.
pub struct StreamMetadataView {
    pub video_width: Option<u32>,
    pub video_height: Option<u32>,
    pub video_codec: Option<Double>,
    pub video_frame_rate: Option<Single>,
    pub video_bitrate_kbps: Option<u32>,
    pub audio_codec: Option<Double>,
    pub audio_bitrate_kbps: Option<u32>,
    pub audio_sample_rate: Option<u32>,
    pub audio_channels: Option<u32>,
    pub audio_is_stereo: Option<bool>,
    pub encoder: Option<Seq<char>>,
}

impl StreamMetadataView {
    /// The metadata that advertises nothing.
    pub open spec fn empty() -> StreamMetadataView {
        StreamMetadataView {
            video_width: None,
            video_height: None,
            video_codec: None,
            video_frame_rate: None,
            video_bitrate_kbps: None,
            audio_codec: None,
            audio_bitrate_kbps: None,
            audio_sample_rate: None,
            audio_channels: None,
            audio_is_stereo: None,
            encoder: None,
        }
    }
}

impl View for StreamMetadata {
    type V = StreamMetadataView;

    open spec fn view(&self) -> StreamMetadataView {
        StreamMetadataView {
            video_width: self.video_width,
            video_height: self.video_height,
            video_codec: self.video_codec,
            video_frame_rate: self.video_frame_rate,
            video_bitrate_kbps: self.video_bitrate_kbps,
            audio_codec: self.audio_codec,
            audio_bitrate_kbps: self.audio_bitrate_kbps,
            audio_sample_rate: self.audio_sample_rate,
            audio_channels: self.audio_channels,
            audio_is_stereo: self.audio_is_stereo,
            encoder: match self.encoder {
                Some(name) => Some(name@),
                None => None,
            },
        }
    }
}

/// The number under `key`, if the properties hold one there.
pub open spec fn number_under(properties: Map<Seq<char>, Scalar>, key: Seq<char>) -> Option<
    Double,
> {
    if properties.contains_key(key) {
        match properties[key] {
            Scalar::Number(number) => Some(number),
            _ => None,
        }
    } else {
        None
    }
}

/// The boolean under `key`, if the properties hold one there.
pub open spec fn boolean_under(properties: Map<Seq<char>, Scalar>, key: Seq<char>) -> Option<
    bool,
> {
    if properties.contains_key(key) {
        match properties[key] {
            Scalar::Boolean(flag) => Some(flag),
            _ => None,
        }
    } else {
        None
    }
}

/// The text under `key`, if the properties hold one there.
pub open spec fn text_under(properties: Map<Seq<char>, Scalar>, key: Seq<char>) -> Option<
    Seq<char>,
> {
    if properties.contains_key(key) {
        match properties[key] {
            Scalar::Text(text) => Some(text),
            _ => None,
        }
    } else {
        None
    }
}

/// The number under `key` as an integer of 32 bits, or `kept` where the
/// properties hold no number there.
pub open spec fn integer_or(
    properties: Map<Seq<char>, Scalar>,
    key: Seq<char>,
    kept: Option<u32>,
) -> Option<u32> {
    match number_under(properties, key) {
        Some(number) => Some(number.spec_to_u32()),
        None => kept,
    }
}

/// The number under `key`, or `kept` where the properties hold no number
/// there.
pub open spec fn number_or(
    properties: Map<Seq<char>, Scalar>,
    key: Seq<char>,
    kept: Option<Double>,
) -> Option<Double> {
    match number_under(properties, key) {
        Some(number) => Some(number),
        None => kept,
    }
}

/// The metadata after the properties were applied to `kept`: a field whose
/// key holds a value of the field's kind takes that value, narrowed to the
/// field's type; every other field stays.
pub open spec fn spec_apply(
    kept: StreamMetadataView,
    properties: Map<Seq<char>, Scalar>,
) -> StreamMetadataView {
    StreamMetadataView {
        video_width: integer_or(properties, "width"@, kept.video_width),
        video_height: integer_or(properties, "height"@, kept.video_height),
        video_codec: number_or(properties, "videocodecid"@, kept.video_codec),
        video_frame_rate: match number_under(properties, "framerate"@) {
            Some(number) => Some(number.spec_to_single()),
            None => kept.video_frame_rate,
        },
        video_bitrate_kbps: integer_or(properties, "videodatarate"@, kept.video_bitrate_kbps),
        audio_codec: number_or(properties, "audiocodecid"@, kept.audio_codec),
        audio_bitrate_kbps: integer_or(properties, "audiodatarate"@, kept.audio_bitrate_kbps),
        audio_sample_rate: integer_or(properties, "audiosamplerate"@, kept.audio_sample_rate),
        audio_channels: integer_or(properties, "audiochannels"@, kept.audio_channels),
        audio_is_stereo: match boolean_under(properties, "stereo"@) {
            Some(flag) => Some(flag),
            None => kept.audio_is_stereo,
        },
        encoder: match text_under(properties, "encoder"@) {
            Some(name) => Some(name),
            None => kept.encoder,
        },
    }
}

/// The metadata that the properties advertise.
pub open spec fn spec_from_properties(properties: Map<Seq<char>, Scalar>) -> StreamMetadataView {
    spec_apply(StreamMetadataView::empty(), properties)
}

/// An integer field as a property: the number that equals it.
pub open spec fn integer_property(field: Option<u32>) -> Option<Scalar> {
    match field {
        Some(value) => Some(Scalar::Number(Double::spec_from_u32(value))),
        None => None,
    }
}

/// A number field as a property.
pub open spec fn number_property(field: Option<Double>) -> Option<Scalar> {
    match field {
        Some(number) => Some(Scalar::Number(number)),
        None => None,
    }
}

/// The property that the metadata has under `key`: the field of that key,
/// widened to a property value, if the field is present. A key of no field
/// has no property.
pub open spec fn spec_property(metadata: StreamMetadataView, key: Seq<char>) -> Option<Scalar> {
    if key == "width"@ {
        integer_property(metadata.video_width)
    } else if key == "height"@ {
        integer_property(metadata.video_height)
    } else if key == "videocodecid"@ {
        number_property(metadata.video_codec)
    } else if key == "videodatarate"@ {
        integer_property(metadata.video_bitrate_kbps)
    } else if key == "framerate"@ {
        match metadata.video_frame_rate {
            Some(rate) => Some(Scalar::Number(rate.spec_to_double())),
            None => None,
        }
    } else if key == "audiocodecid"@ {
        number_property(metadata.audio_codec)
    } else if key == "audiodatarate"@ {
        integer_property(metadata.audio_bitrate_kbps)
    } else if key == "audiosamplerate"@ {
        integer_property(metadata.audio_sample_rate)
    } else if key == "audiochannels"@ {
        integer_property(metadata.audio_channels)
    } else if key == "stereo"@ {
        match metadata.audio_is_stereo {
            Some(flag) => Some(Scalar::Boolean(flag)),
            None => None,
        }
    } else if key == "encoder"@ {
        match metadata.encoder {
            Some(name) => Some(Scalar::Text(name)),
            None => None,
        }
    } else {
        None
    }
}

/// The properties of the metadata: one for each field that is present.
pub open spec fn spec_to_properties(metadata: StreamMetadataView) -> Map<Seq<char>, Scalar> {
    Map::new(
        |key: Seq<char>| spec_property(metadata, key) is Some,
        |key: Seq<char>| spec_property(metadata, key)->Some_0,
    )
}

/// The place of a field's key among the eleven keys, and 11 for a key of
/// no field.
pub open spec fn key_rank(key: Seq<char>) -> int {
    if key == "width"@ {
        0
    } else if key == "height"@ {
        1
    } else if key == "videocodecid"@ {
        2
    } else if key == "videodatarate"@ {
        3
    } else if key == "framerate"@ {
        4
    } else if key == "audiocodecid"@ {
        5
    } else if key == "audiodatarate"@ {
        6
    } else if key == "audiosamplerate"@ {
        7
    } else if key == "audiochannels"@ {
        8
    } else if key == "stereo"@ {
        9
    } else if key == "encoder"@ {
        10
    } else {
        11
    }
}

/// The properties of the first `count` fields of the metadata.
pub open spec fn first_properties(metadata: StreamMetadataView, count: int) -> Map<
    Seq<char>,
    Scalar,
> {
    Map::new(
        |key: Seq<char>| key_rank(key) < count && spec_property(metadata, key) is Some,
        |key: Seq<char>| spec_property(metadata, key)->Some_0,
    )
}

/// The properties of one field more are the properties so far and that
/// field's property, if it has one.
pub proof fn lemma_next_property(metadata: StreamMetadataView, key: Seq<char>)
    requires
        key_rank(key) < 11,
    ensures
        first_properties(metadata, key_rank(key) + 1) == (match spec_property(metadata, key) {
            Some(scalar) => first_properties(metadata, key_rank(key)).insert(key, scalar),
            None => first_properties(metadata, key_rank(key)),
        }),
{
    let count = key_rank(key);
    let wanted = match spec_property(metadata, key) {
        Some(scalar) => first_properties(metadata, count).insert(key, scalar),
        None => first_properties(metadata, count),
    };
    assert forall|other: Seq<char>| key_rank(other) == count implies other == key by {}
    assert(first_properties(metadata, count + 1) =~= wanted);
}

/// The properties of all eleven fields are the properties of the metadata.
pub proof fn lemma_all_properties(metadata: StreamMetadataView)
    ensures
        first_properties(metadata, 11) == spec_to_properties(metadata),
        first_properties(metadata, 0) == Map::<Seq<char>, Scalar>::empty(),
{
    assert(first_properties(metadata, 11) =~= spec_to_properties(metadata));
    assert(first_properties(metadata, 0) =~= Map::<Seq<char>, Scalar>::empty());
}

/// The eleven keys are eleven different texts.
pub proof fn lemma_keys_differ()
    ensures
        "width"@.len() == 5,
        "height"@.len() == 6 && "height"@[0] == 'h',
        "stereo"@.len() == 6 && "stereo"@[0] == 's',
        "encoder"@.len() == 7,
        "framerate"@.len() == 9,
        "videocodecid"@.len() == 12 && "videocodecid"@[0] == 'v',
        "audiocodecid"@.len() == 12 && "audiocodecid"@[0] == 'a',
        "videodatarate"@.len() == 13 && "videodatarate"@[0] == 'v',
        "audiodatarate"@.len() == 13 && "audiodatarate"@[0] == 'a' && "audiodatarate"@[5] == 'd',
        "audiochannels"@.len() == 13 && "audiochannels"@[0] == 'a' && "audiochannels"@[5] == 'c',
        "audiosamplerate"@.len() == 15,
{
    reveal_strlit("width");
    reveal_strlit("height");
    reveal_strlit("stereo");
    reveal_strlit("encoder");
    reveal_strlit("framerate");
    reveal_strlit("videocodecid");
    reveal_strlit("audiocodecid");
    reveal_strlit("videodatarate");
    reveal_strlit("audiodatarate");
    reveal_strlit("audiochannels");
    reveal_strlit("audiosamplerate");
}

/// The number under `key`, if the properties hold one there.
fn number_of(properties: &PropertyMap, key: &str) -> (number: Option<Double>)
    ensures
        number == number_under(properties.scalars(), key@),
{
    match properties.get(key) {
        Some(value) => value.get_number(),
        None => None,
    }
}

/// The boolean under `key`, if the properties hold one there.
fn boolean_of(properties: &PropertyMap, key: &str) -> (flag: Option<bool>)
    ensures
        flag == boolean_under(properties.scalars(), key@),
{
    match properties.get(key) {
        Some(value) => value.get_boolean(),
        None => None,
    }
}

/// A copy of the text under `key`, if the properties hold one there.
fn text_of(properties: &PropertyMap, key: &str) -> (text: Option<String>)
    ensures
        match text_under(properties.scalars(), key@) {
            Some(held) => text matches Some(copy) && copy@ == held,
            None => text is None,
        },
{
    match properties.get(key) {
        Some(value) => value.get_string(),
        None => None,
    }
}

/// Puts `value` under `key`, if there is a value.
fn put(properties: &mut PropertyMap, key: &str, value: Option<PropertyValue>)
    ensures
        final(properties).scalars() == (match value {
            Some(held) => old(properties).scalars().insert(key@, held.scalar()),
            None => old(properties).scalars(),
        }),
{
    if let Some(held) = value {
        let ghost wanted = old(properties).scalars().insert(key@, held.scalar());
        properties.insert(key.to_owned(), held);
        assert(properties.scalars() =~= wanted);
    }
}

/// An integer field as a property value.
fn integer_value(field: Option<u32>) -> (value: Option<PropertyValue>)
    ensures
        match integer_property(field) {
            Some(scalar) => value matches Some(held) && held.scalar() == scalar,
            None => value is None,
        },
{
    match field {
        Some(number) => Some(PropertyValue::Number(Double::from_u32(number))),
        None => None,
    }
}

/// A number field as a property value.
fn number_value(field: Option<Double>) -> (value: Option<PropertyValue>)
    ensures
        match number_property(field) {
            Some(scalar) => value matches Some(held) && held.scalar() == scalar,
            None => value is None,
        },
{
    match field {
        Some(number) => Some(PropertyValue::Number(number)),
        None => None,
    }
}

impl StreamMetadata {
    /// The metadata that advertises nothing.
    pub fn new() -> (metadata: StreamMetadata)
        ensures
            metadata@ == StreamMetadataView::empty(),
    {
        StreamMetadata {
            video_width: None,
            video_height: None,
            video_codec: None,
            video_frame_rate: None,
            video_bitrate_kbps: None,
            audio_codec: None,
            audio_bitrate_kbps: None,
            audio_sample_rate: None,
            audio_channels: None,
            audio_is_stereo: None,
            encoder: None,
        }
    }

    /// Takes over what the properties advertise. A field whose key holds a
    /// value of the field's kind takes that value, narrowed to the field's
    /// type. A key that is absent, or holds a value of another kind, leaves
    /// its field as it was, and a key of no field is passed over: no
    /// properties are an error.
    pub fn apply_metadata_values(&mut self, properties: PropertyMap)
        ensures
            final(self)@ == spec_apply(old(self)@, properties.scalars()),
    {
        if let Some(number) = number_of(&properties, "width") {
            self.video_width = Some(number.to_u32());
        }
        if let Some(number) = number_of(&properties, "height") {
            self.video_height = Some(number.to_u32());
        }
        if let Some(number) = number_of(&properties, "videocodecid") {
            self.video_codec = Some(number);
        }
        if let Some(number) = number_of(&properties, "videodatarate") {
            self.video_bitrate_kbps = Some(number.to_u32());
        }
        if let Some(number) = number_of(&properties, "framerate") {
            self.video_frame_rate = Some(number.to_single());
        }
        if let Some(number) = number_of(&properties, "audiocodecid") {
            self.audio_codec = Some(number);
        }
        if let Some(number) = number_of(&properties, "audiodatarate") {
            self.audio_bitrate_kbps = Some(number.to_u32());
        }
        if let Some(number) = number_of(&properties, "audiosamplerate") {
            self.audio_sample_rate = Some(number.to_u32());
        }
        if let Some(number) = number_of(&properties, "audiochannels") {
            self.audio_channels = Some(number.to_u32());
        }
        if let Some(flag) = boolean_of(&properties, "stereo") {
            self.audio_is_stereo = Some(flag);
        }
        if let Some(name) = text_of(&properties, "encoder") {
            self.encoder = Some(name);
        }
    }

    /// The metadata that the properties advertise: what
    /// [`StreamMetadata::apply_metadata_values`] makes of the empty
    /// metadata.
    pub fn from_properties(properties: PropertyMap) -> (metadata: StreamMetadata)
        ensures
            metadata@ == spec_from_properties(properties.scalars()),
    {
        let mut metadata = StreamMetadata::new();
        metadata.apply_metadata_values(properties);
        metadata
    }

    /// The properties of the metadata: one for each field that is present,
    /// under the field's key, as a number, a boolean or a text. A field
    /// that is absent has no property.
    pub fn to_properties(&self) -> (properties: PropertyMap)
        ensures
            properties.scalars() == spec_to_properties(self@),
    {
        let mut properties = PropertyMap::new();
        proof {
            lemma_keys_differ();
            lemma_all_properties(self@);
        }
        put(&mut properties, "width", integer_value(self.video_width));
        proof {
            lemma_next_property(self@, "width"@);
        }
        put(&mut properties, "height", integer_value(self.video_height));
        proof {
            lemma_next_property(self@, "height"@);
        }
        put(&mut properties, "videocodecid", number_value(self.video_codec));
        proof {
            lemma_next_property(self@, "videocodecid"@);
        }
        put(&mut properties, "videodatarate", integer_value(self.video_bitrate_kbps));
        proof {
            lemma_next_property(self@, "videodatarate"@);
        }
        put(
            &mut properties,
            "framerate",
            match self.video_frame_rate {
                Some(rate) => Some(PropertyValue::Number(rate.to_double())),
                None => None,
            },
        );
        proof {
            lemma_next_property(self@, "framerate"@);
        }
        assert(properties.scalars() == first_properties(self@, 5));
        put(&mut properties, "audiocodecid", number_value(self.audio_codec));
        proof {
            lemma_next_property(self@, "audiocodecid"@);
        }
        put(&mut properties, "audiodatarate", integer_value(self.audio_bitrate_kbps));
        proof {
            lemma_next_property(self@, "audiodatarate"@);
        }
        put(&mut properties, "audiosamplerate", integer_value(self.audio_sample_rate));
        proof {
            lemma_next_property(self@, "audiosamplerate"@);
        }
        put(&mut properties, "audiochannels", integer_value(self.audio_channels));
        proof {
            lemma_next_property(self@, "audiochannels"@);
        }
        assert(properties.scalars() == first_properties(self@, 9));
        put(
            &mut properties,
            "stereo",
            match self.audio_is_stereo {
                Some(flag) => Some(PropertyValue::Boolean(flag)),
                None => None,
            },
        );
        proof {
            lemma_next_property(self@, "stereo"@);
        }
        put(
            &mut properties,
            "encoder",
            match &self.encoder {
                Some(name) => Some(PropertyValue::Utf8String(name.clone())),
                None => None,
            },
        );
        proof {
            lemma_next_property(self@, "encoder"@);
        }
        properties
    }

    /// The properties of the metadata as one object value: see
    /// [`StreamMetadata::to_properties`].
    pub fn to_amf_value(&self) -> (value: PropertyValue)
        ensures
            value matches PropertyValue::Object(properties) && properties.scalars()
                == spec_to_properties(self@),
    {
        PropertyValue::Object(self.to_properties())
    }
}

} // verus!

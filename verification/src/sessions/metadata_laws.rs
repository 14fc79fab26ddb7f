//! What holds of the translation between stream metadata and properties.

use crate::amf::Scalar;
use crate::ieee754::single::Single;
use crate::ieee754::Double;
use crate::sessions::{
    key_rank, lemma_keys_differ, spec_from_properties, spec_property, spec_to_properties,
    StreamMetadataView,
};
use vstd::prelude::*;

verus! {

/// The scalar has the kind that the field of `key` takes: a number for the
/// nine numeric fields, a boolean for `stereo`, a text for `encoder`. No
/// scalar has the kind of a key of no field.
pub open spec fn has_kind_of(scalar: Scalar, key: Seq<char>) -> bool {
    if key_rank(key) < 9 {
        scalar is Number
    } else if key_rank(key) == 9 {
        scalar is Boolean
    } else if key_rank(key) == 10 {
        scalar is Text
    } else {
        false
    }
}

/// What becomes of a well-typed property when it is read into its field
/// and written back: an integer field keeps the number's whole part within
/// 32 bits, the frame rate the nearest binary32 number, every other field
/// the value as it is.
pub open spec fn narrowed(scalar: Scalar, key: Seq<char>) -> Scalar {
    match scalar {
        Scalar::Number(number) => if key == "videocodecid"@ || key == "audiocodecid"@ {
            scalar
        } else if key == "framerate"@ {
            Scalar::Number(number.spec_to_single().spec_to_double())
        } else {
            Scalar::Number(Double::spec_from_u32(number.spec_to_u32()))
        },
        _ => scalar,
    }
}

/// The frame rate, if there is one, is no signaling NaN.
pub open spec fn frame_rate_is_quiet(metadata: StreamMetadataView) -> bool {
    metadata.video_frame_rate matches Some(rate) ==> !rate.is_signaling_nan()
}

/// An integer that was written as a number is read back as it was.
proof fn lemma_integer_read_back(field: Option<u32>)
    ensures
        field matches Some(value) ==> Double::spec_from_u32(value).spec_to_u32() == value,
{
    if let Some(value) = field {
        Double::lemma_from_u32(value);
        Double::spec_from_u32(value).lemma_u32_round_trip(value);
    }
}

/// A binary32 number that is no signaling NaN is read back as it was.
proof fn lemma_single_read_back(rate: Single)
    requires
        !rate.is_signaling_nan(),
    ensures
        rate.spec_to_double().spec_to_single() == rate,
{
    rate.lemma_to_double();
    rate.spec_to_double().lemma_single_round_trip(rate);
}

/// Metadata that advertises nothing has no properties.
pub proof fn lemma_empty_metadata_has_no_properties()
    ensures
        spec_to_properties(StreamMetadataView::empty()) == Map::<Seq<char>, Scalar>::empty(),
{
    assert(spec_to_properties(StreamMetadataView::empty()) =~= Map::<Seq<char>, Scalar>::empty());
}

/// No properties advertise nothing.
pub proof fn lemma_no_properties_give_empty_metadata()
    ensures
        spec_from_properties(Map::<Seq<char>, Scalar>::empty()) == StreamMetadataView::empty(),
{
}

/// The properties of metadata give the metadata back, unless its frame rate
/// is a signaling NaN.
pub proof fn lemma_properties_give_metadata_back(metadata: StreamMetadataView)
    requires
        frame_rate_is_quiet(metadata),
    ensures
        spec_from_properties(spec_to_properties(metadata)) == metadata,
{
    lemma_keys_differ();
    lemma_integer_read_back(metadata.video_width);
    lemma_integer_read_back(metadata.video_height);
    lemma_integer_read_back(metadata.video_bitrate_kbps);
    lemma_integer_read_back(metadata.audio_bitrate_kbps);
    lemma_integer_read_back(metadata.audio_sample_rate);
    lemma_integer_read_back(metadata.audio_channels);
    if let Some(rate) = metadata.video_frame_rate {
        lemma_single_read_back(rate);
    }
    let properties = spec_to_properties(metadata);
    let back = spec_from_properties(properties);
    assert(back.video_width == metadata.video_width);
    assert(back.video_height == metadata.video_height);
    assert(back.video_codec == metadata.video_codec);
    assert(back.video_frame_rate == metadata.video_frame_rate);
    assert(back.video_bitrate_kbps == metadata.video_bitrate_kbps);
    assert(back.audio_codec == metadata.audio_codec);
    assert(back.audio_bitrate_kbps == metadata.audio_bitrate_kbps);
    assert(back.audio_sample_rate == metadata.audio_sample_rate);
    assert(back.audio_channels == metadata.audio_channels);
    assert(back.audio_is_stereo == metadata.audio_is_stereo);
    assert(back.encoder == metadata.encoder);
}

/// Metadata that was read from properties has a frame rate that is no
/// signaling NaN.
pub proof fn lemma_read_metadata_is_quiet(properties: Map<Seq<char>, Scalar>)
    ensures
        frame_rate_is_quiet(spec_from_properties(properties)),
{
    let metadata = spec_from_properties(properties);
    if properties.contains_key("framerate"@) {
        if let Scalar::Number(number) = properties["framerate"@] {
            number.lemma_to_single_never_signaling();
        }
    }
}

/// Metadata that was read from properties is the metadata that its own
/// properties give: writing and reading back changes nothing.
pub proof fn lemma_read_metadata_is_stable(properties: Map<Seq<char>, Scalar>)
    ensures
        spec_from_properties(spec_to_properties(spec_from_properties(properties)))
            == spec_from_properties(properties),
{
    lemma_read_metadata_is_quiet(properties);
    lemma_properties_give_metadata_back(spec_from_properties(properties));
}

/// A property of another kind than its field takes, or under a key of no
/// field, counts as much as no property: the metadata is what the other
/// properties alone advertise.
pub proof fn lemma_mismatch_is_absence(properties: Map<Seq<char>, Scalar>, key: Seq<char>)
    requires
        properties.contains_key(key),
        !has_kind_of(properties[key], key),
    ensures
        spec_from_properties(properties) == spec_from_properties(properties.remove(key)),
{
    lemma_keys_differ();
    let with = spec_from_properties(properties);
    let without = spec_from_properties(properties.remove(key));
    assert(with.video_width == without.video_width);
    assert(with.video_height == without.video_height);
    assert(with.video_codec == without.video_codec);
    assert(with.video_frame_rate == without.video_frame_rate);
    assert(with.video_bitrate_kbps == without.video_bitrate_kbps);
    assert(with.audio_codec == without.audio_codec);
    assert(with.audio_bitrate_kbps == without.audio_bitrate_kbps);
    assert(with.audio_sample_rate == without.audio_sample_rate);
    assert(with.audio_channels == without.audio_channels);
    assert(with.audio_is_stereo == without.audio_is_stereo);
    assert(with.encoder == without.encoder);
}

/// The properties of metadata have no key but the keys of the fields.
pub proof fn lemma_only_field_keys(metadata: StreamMetadataView, key: Seq<char>)
    requires
        key_rank(key) == 11,
    ensures
        !spec_to_properties(metadata).contains_key(key),
{
}

/// The eleven keys of the fields.
pub open spec fn field_keys() -> Set<Seq<char>> {
    set![
        "width"@,
        "height"@,
        "videocodecid"@,
        "videodatarate"@,
        "framerate"@,
        "audiocodecid"@,
        "audiodatarate"@,
        "audiosamplerate"@,
        "audiochannels"@,
        "stereo"@,
        "encoder"@,
    ]
}

/// Metadata has eleven properties at most.
pub proof fn lemma_at_most_eleven_properties(metadata: StreamMetadataView)
    ensures
        spec_to_properties(metadata).dom().finite(),
        spec_to_properties(metadata).dom().len() <= 11,
        spec_to_properties(metadata).dom().subset_of(field_keys()),
{
    let keys = field_keys();
    assert(keys.finite() && keys.len() <= 11);
    assert(spec_to_properties(metadata).dom().subset_of(keys));
    vstd::set_lib::lemma_len_subset(spec_to_properties(metadata).dom(), keys);
}

/// Reading properties and writing the metadata out gives, under each key
/// that held a value of its field's kind, that value narrowed to the
/// field's type, and gives no other key.
pub proof fn lemma_written_back(properties: Map<Seq<char>, Scalar>, key: Seq<char>)
    ensures
        spec_to_properties(spec_from_properties(properties)).contains_key(key) <==> (
        properties.contains_key(key) && has_kind_of(properties[key], key)),
        properties.contains_key(key) && has_kind_of(properties[key], key) ==> spec_to_properties(
            spec_from_properties(properties),
        )[key] == narrowed(properties[key], key),
{
    lemma_keys_differ();
    let metadata = spec_from_properties(properties);
    assert(spec_to_properties(metadata).contains_key(key) <==> spec_property(metadata, key)
        is Some);
}

/// Properties that are all of the kind of their field are written back
/// under the same keys, each narrowed to its field's type.
pub proof fn lemma_well_typed_round_trip(properties: Map<Seq<char>, Scalar>)
    requires
        forall|key: Seq<char>| #[trigger]
            properties.contains_key(key) ==> has_kind_of(properties[key], key),
    ensures
        spec_to_properties(spec_from_properties(properties)).dom() == properties.dom(),
        forall|key: Seq<char>| #[trigger]
            properties.contains_key(key) ==> spec_to_properties(
                spec_from_properties(properties),
            )[key] == narrowed(properties[key], key),
{
    let written = spec_to_properties(spec_from_properties(properties));
    assert forall|key: Seq<char>| written.dom().contains(key) <==> properties.dom().contains(
        key,
    ) by {
        lemma_written_back(properties, key);
    }
    assert(written.dom() =~= properties.dom());
    assert forall|key: Seq<char>| #[trigger] properties.contains_key(key) implies written[key]
        == narrowed(properties[key], key) by {
        lemma_written_back(properties, key);
    }
}

} // verus!

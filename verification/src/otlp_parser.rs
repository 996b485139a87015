//! Extraction of resource attributes from one OTLP metrics export request in
//! JSON form.

use vstd::prelude::*;

use opentelemetry_proto::tonic::collector::metrics::v1::ExportMetricsServiceRequest;
use opentelemetry_proto::tonic::common::v1::any_value::Value::{
    ArrayValue, BoolValue, BytesValue, DoubleValue, IntValue, KvlistValue, StringValue,
    StringValueStrindex,
};

use crate::attributes::{AttrSeq, Attributes, upsert};
use crate::text::{bool_text, i64_text, int_decimal};

verus! {

/// An OTLP attribute value, as far as this library reads it. A double is
/// carried as its `Display` text; arrays, key-value lists, bytes and string
/// table references are carried as `Other`.
pub enum AttrValue {
    Str(String),
    Bool(bool),
    Int(i64),
    Double(String),
    Other,
}

/// The mathematical form of [`AttrValue`].
pub enum AttrValueModel {
    Str(Seq<char>),
    Bool(bool),
    Int(i64),
    Double(Seq<char>),
    Other,
}

impl View for AttrValue {
    type V = AttrValueModel;

    open spec fn view(&self) -> AttrValueModel {
        match self {
            AttrValue::Str(s) => AttrValueModel::Str(s@),
            AttrValue::Bool(b) => AttrValueModel::Bool(*b),
            AttrValue::Int(i) => AttrValueModel::Int(*i),
            AttrValue::Double(s) => AttrValueModel::Double(s@),
            AttrValue::Other => AttrValueModel::Other,
        }
    }
}

/// One attribute of a resource: its key and its value, where the value
/// message and its content may each be absent.
pub struct RawKeyValue {
    pub key: String,
    pub value: Option<Option<AttrValue>>,
}

/// The mathematical form of [`RawKeyValue`].
pub struct KeyValueModel {
    pub key: Seq<char>,
    pub value: Option<Option<AttrValueModel>>,
}

impl View for RawKeyValue {
    type V = KeyValueModel;

    open spec fn view(&self) -> KeyValueModel {
        KeyValueModel {
            key: self.key@,
            value: match &self.value {
                Some(Some(v)) => Some(Some(v@)),
                Some(None) => Some(None),
                None => None,
            },
        }
    }
}

/// One `ResourceMetrics` block: the attributes of its resource, where the
/// resource is present.
pub struct RawResourceMetrics {
    pub resource: Option<Vec<RawKeyValue>>,
}

/// The mathematical form of [`RawResourceMetrics`].
pub struct ResourceModel {
    pub attributes: Option<Seq<KeyValueModel>>,
}

impl View for RawResourceMetrics {
    type V = ResourceModel;

    open spec fn view(&self) -> ResourceModel {
        ResourceModel {
            attributes: match &self.resource {
                Some(kvs) => Some(kvs@.map_values(|kv: RawKeyValue| kv@)),
                None => None,
            },
        }
    }
}

/// The name of what `serde_json` reads from `line` as an OTLP
/// `ExportMetricsServiceRequest`: its resource blocks, or nothing where the
/// line is not such a request.
pub uninterp spec fn decoded_request(line: Seq<char>) -> Option<Seq<ResourceModel>>;

/// Calls `serde_json::from_str` to read `line` as an OTLP
/// `ExportMetricsServiceRequest` (protobuf JSON mapping), and hands out the
/// resource attributes of each `ResourceMetrics`. What the decoder accepts is
/// only named here.
#[verifier::external_body]
fn decode_request(line: &str) -> (r: Option<Vec<RawResourceMetrics>>)
    ensures
        match r {
            Some(v) => decoded_request(line@) == Some(v@.map_values(|x: RawResourceMetrics| x@)),
            None => decoded_request(line@) is None,
        },
{
    let req: ExportMetricsServiceRequest = serde_json::from_str(line).ok()?;
    Some(req.resource_metrics.into_iter().map(|rm| RawResourceMetrics {
        resource: rm.resource.map(|r| r.attributes.into_iter().map(|kv| RawKeyValue {
            key: kv.key,
            value: kv.value.map(|av| av.value.map(|v| match v {
                StringValue(s) => AttrValue::Str(s),
                BoolValue(b) => AttrValue::Bool(b),
                IntValue(i) => AttrValue::Int(i),
                DoubleValue(d) => AttrValue::Double(d.to_string()),
                ArrayValue(_) => AttrValue::Other, KvlistValue(_) => AttrValue::Other,
                BytesValue(_) => AttrValue::Other, StringValueStrindex(_) => AttrValue::Other,
            })),
        }).collect()),
    }).collect())
}

/// The text of a value: strings as they are, booleans as `true`/`false`,
/// integers in decimal, doubles as their text; no text for other kinds.
pub open spec fn value_text(v: AttrValueModel) -> Option<Seq<char>> {
    match v {
        AttrValueModel::Str(s) => Some(s),
        AttrValueModel::Bool(b) => Some(
            if b {
                seq!['t', 'r', 'u', 'e']
            } else {
                seq!['f', 'a', 'l', 's', 'e']
            },
        ),
        AttrValueModel::Int(i) => Some(int_decimal(i as int)),
        AttrValueModel::Double(s) => Some(s),
        AttrValueModel::Other => None,
    }
}

/// The text of an attribute, where it has a value with a text.
pub open spec fn kv_text(kv: KeyValueModel) -> Option<Seq<char>> {
    match kv.value {
        Some(Some(v)) => value_text(v),
        _ => None,
    }
}

/// The attribute set of a list of attributes: each attribute with a text is
/// set in order, so a later attribute with the same key wins.
pub open spec fn kvs_attrs(kvs: Seq<KeyValueModel>) -> AttrSeq
    decreases kvs.len(),
{
    if kvs.len() == 0 {
        Seq::empty()
    } else {
        let acc = kvs_attrs(kvs.drop_last());
        match kv_text(kvs.last()) {
            Some(t) => upsert(acc, kvs.last().key, t),
            None => acc,
        }
    }
}

/// The attribute set of one resource block; empty where it has no resource.
pub open spec fn resource_attrs(rm: ResourceModel) -> AttrSeq {
    match rm.attributes {
        Some(kvs) => kvs_attrs(kvs),
        None => Seq::empty(),
    }
}

/// The attribute sets that [`parse_resource_attrs`] gives for `line`.
pub open spec fn spec_parse_resource_attrs(line: Seq<char>) -> Seq<AttrSeq> {
    if line.len() == 0 {
        Seq::empty()
    } else {
        match decoded_request(line) {
            Some(rms) => rms.map_values(|rm: ResourceModel| resource_attrs(rm)),
            None => Seq::empty(),
        }
    }
}

/// The text of an attribute value, where it has one.
pub fn any_value_to_string(v: &AttrValue) -> (r: Option<String>)
    ensures
        match r {
            Some(s) => value_text(v@) == Some(s@),
            None => value_text(v@) is None,
        },
{
    match v {
        AttrValue::Str(s) => Some(s.clone()),
        AttrValue::Bool(b) => Some(bool_text(*b)),
        AttrValue::Int(i) => Some(i64_text(*i)),
        AttrValue::Double(s) => Some(s.clone()),
        AttrValue::Other => None,
    }
}

/// The attribute set of each resource block: every attribute with a text is
/// set, a later one replacing an earlier one of the same key.
pub fn resources_to_attributes(rms: &Vec<RawResourceMetrics>) -> (r: Vec<Attributes>)
    ensures
        r@.map_values(|a: Attributes| a@) == rms@.map_values(
            |rm: RawResourceMetrics| resource_attrs(rm@),
        ),
{
    let mut out: Vec<Attributes> = Vec::new();
    let mut i: usize = 0;
    while i < rms.len()
        invariant
            i <= rms@.len(),
            out@.map_values(|a: Attributes| a@) == rms@.take(i as int).map_values(
                |rm: RawResourceMetrics| resource_attrs(rm@),
            ),
        decreases rms@.len() - i,
    {
        let mut attrs = Attributes::new();
        match &rms[i].resource {
            Some(kvs) => {
                let ghost kv_models = kvs@.map_values(|kv: RawKeyValue| kv@);
                let mut j: usize = 0;
                proof {
                    assert(kv_models.take(0) =~= Seq::<KeyValueModel>::empty());
                }
                while j < kvs.len()
                    invariant
                        j <= kvs@.len(),
                        kv_models == kvs@.map_values(|kv: RawKeyValue| kv@),
                        attrs@ == kvs_attrs(kv_models.take(j as int)),
                    decreases kvs@.len() - j,
                {
                    proof {
                        assert(kv_models.take(j + 1).drop_last() =~= kv_models.take(j as int));
                        assert(kv_models.take(j + 1).last() == kvs@[j as int]@);
                    }
                    match &kvs[j].value {
                        Some(Some(v)) => {
                            match any_value_to_string(v) {
                                Some(text) => {
                                    attrs.insert(kvs[j].key.clone(), text);
                                },
                                None => {},
                            }
                        },
                        _ => {},
                    }
                    j = j + 1;
                }
                proof {
                    assert(kv_models.take(kvs@.len() as int) =~= kv_models);
                    assert(rms@[i as int]@.attributes == Some(kv_models));
                }
            },
            None => {},
        }
        assert(attrs@ == resource_attrs(rms@[i as int]@));
        let ghost old_out = out@;
        out.push(attrs);
        proof {
            assert(out@.map_values(|a: Attributes| a@) =~= old_out.map_values(|a: Attributes| a@).push(
                resource_attrs(rms@[i as int]@),
            ));
            assert(rms@.take(i + 1) =~= rms@.take(i as int).push(rms@[i as int]));
            assert(out@.map_values(|a: Attributes| a@) =~= rms@.take(i + 1).map_values(
                |rm: RawResourceMetrics| resource_attrs(rm@),
            ));
        }
        i = i + 1;
    }
    proof {
        assert(rms@.take(rms@.len() as int) =~= rms@);
    }
    out
}

/// The resource attribute sets of one OTLP JSON line, one per
/// `ResourceMetrics` block; none for an empty or undecodable line.
pub fn parse_resource_attrs(line: &str) -> (r: Vec<Attributes>)
    ensures
        r@.map_values(|a: Attributes| a@) == spec_parse_resource_attrs(line@),
{
    if line.is_empty() {
        let r: Vec<Attributes> = Vec::new();
        assert(r@.map_values(|a: Attributes| a@) =~= Seq::<AttrSeq>::empty());
        return r;
    }
    match decode_request(line) {
        Some(rms) => {
            let r = resources_to_attributes(&rms);
            assert(rms@.map_values(|rm: RawResourceMetrics| resource_attrs(rm@)) =~= rms@.map_values(
                |x: RawResourceMetrics| x@,
            ).map_values(|rm: ResourceModel| resource_attrs(rm)));
            r
        },
        None => {
            let r: Vec<Attributes> = Vec::new();
            assert(r@.map_values(|a: Attributes| a@) =~= Seq::<AttrSeq>::empty());
            r
        },
    }
}

} // verus!

use vstd::prelude::*;

verus! {

/// serde_json's dynamic document value, declared so signatures here can
/// carry it; what a value holds is read only through the trusted accessors
/// below, which all speak of `value_model`.
#[verifier::external_type_specification]
#[verifier::external_body]
pub struct ExValue(serde_json::Value);

/// serde_json's parse error, declared so the parse wrapper can return it;
/// it is mapped at once to `ParseError`.
#[verifier::external_type_specification]
#[verifier::external_body]
pub struct ExError(serde_json::Error);

/// A JSON value as this library reads it. Numbers are split by whether
/// serde_json yields them as a `u64`: `Integer` holds exactly those, and
/// `OtherNumber` stands for negative, fractional or oversized numbers.
pub enum JsonModel {
    Null,
    Bool(bool),
    Integer(u64),
    OtherNumber,
    Text(Seq<char>),
    List(Seq<JsonModel>),
    Object(Map<Seq<char>, JsonModel>),
}

/// What serde_json parses a given text to, `None` exactly when the text is
/// not a JSON document. Naming this is sound: serde_json::from_str on a
/// given text is a function of that text alone.
pub uninterp spec fn json_of(s: Seq<char>) -> Option<JsonModel>;

/// What a parsed serde_json value holds, as this library's model: the
/// contents name for the outside document type, which every trusted
/// accessor below speaks of.
pub uninterp spec fn value_model(v: serde_json::Value) -> JsonModel;

/// Key lookup on the model: `Some` exactly for an object with that key.
pub open spec fn model_get(m: JsonModel, key: Seq<char>) -> Option<JsonModel> {
    match m {
        JsonModel::Object(fields) => if fields.dom().contains(key) {
            Some(fields[key])
        } else {
            None
        },
        _ => None,
    }
}

/// The model value as a non-negative integer, `None` when it is none.
pub open spec fn model_as_u64(m: JsonModel) -> Option<u64> {
    match m {
        JsonModel::Integer(x) => Some(x),
        _ => None,
    }
}

/// The model value as a list, `None` when it is none.
pub open spec fn model_as_list(m: JsonModel) -> Option<Seq<JsonModel>> {
    match m {
        JsonModel::List(items) => Some(items),
        _ => None,
    }
}

/// The model value as a machine-sized non-negative integer.
pub open spec fn model_as_usize(m: JsonModel) -> Option<usize> {
    match model_as_u64(m) {
        Some(x) => if x <= usize::MAX as u64 {
            Some(x as usize)
        } else {
            None
        },
        None => None,
    }
}

/// Relies on serde_json::from_str: parses a JSON document from text, `Err`
/// exactly on malformed text, and the parsed value holds the named model
/// of the text.
#[verifier::external_body]
fn json_from_str(s: &str) -> (r: Result<serde_json::Value, serde_json::Error>)
    ensures
        r is Ok <==> json_of(s@) is Some,
        r matches Ok(v) ==> value_model(v) == json_of(s@).unwrap(),
{
    serde_json::from_str(s)
}

/// Relies on serde_json::Value::get: looks a key up in a JSON object,
/// `None` when the value is no object or has no such key.
#[verifier::external_body]
fn json_get<'a>(v: &'a serde_json::Value, key: &str) -> (r: Option<&'a serde_json::Value>)
    ensures
        r is Some <==> model_get(value_model(*v), key@) is Some,
        r matches Some(x) ==> value_model(*x) == model_get(value_model(*v), key@).unwrap(),
{
    v.get(key)
}

/// Relies on serde_json::Value::as_u64: the value as a non-negative
/// integer, `None` when it is none.
#[verifier::external_body]
fn json_as_u64(v: &serde_json::Value) -> (r: Option<u64>)
    ensures
        r == model_as_u64(value_model(*v)),
{
    v.as_u64()
}

/// Relies on serde_json::Value::as_array: the value as a list, `None` when
/// it is none; the elements hold the model's list entries in order.
#[verifier::external_body]
fn json_as_array<'a>(v: &'a serde_json::Value) -> (r: Option<&'a Vec<serde_json::Value>>)
    ensures
        r is Some <==> model_as_list(value_model(*v)) is Some,
        r matches Some(a) ==> a@.map_values(|x: serde_json::Value| value_model(x))
            == model_as_list(value_model(*v)).unwrap(),
{
    v.as_array()
}

/// Why a puzzle description was rejected before reaching `Graph::new`.
#[derive(Clone, Copy, Debug, PartialEq, Eq, Structural)]
pub enum ParseError {
    /// The text is not a JSON document.
    InvalidJson,
    /// No `start` key.
    MissingStart,
    /// `start` is not a non-negative integer that fits the machine.
    InvalidStart,
    /// No `neighbours` key.
    MissingNeighbours,
    /// `neighbours` is not a list of lists of such integers.
    InvalidNeighbours,
    /// No `colors` key.
    MissingColors,
    /// `colors` is not a list of such integers.
    InvalidColors,
}

/// A puzzle description as plain values: the start node, one neighbour
/// list per node, one color id per node.
pub struct PuzzleInput {
    /// Node the flood starts from.
    pub start: usize,
    /// Per node, the ids of its neighbours.
    pub neighbours: Vec<Vec<usize>>,
    /// Per node, its color id.
    pub colors: Vec<usize>,
}

/// The model value is a list of machine-sized non-negative integers.
pub open spec fn int_row_ok(m: JsonModel) -> bool {
    &&& model_as_list(m) is Some
    &&& forall|j: int| 0 <= j < model_as_list(m).unwrap().len()
        ==> model_as_usize(#[trigger] model_as_list(m).unwrap()[j]) is Some
}

/// The integers of such a list, in order.
pub open spec fn int_row_value(m: JsonModel) -> Seq<usize> {
    model_as_list(m).unwrap().map_values(|x: JsonModel| model_as_usize(x).unwrap())
}

/// The model value is a list of lists of machine-sized integers.
pub open spec fn rows_ok(m: JsonModel) -> bool {
    &&& model_as_list(m) is Some
    &&& forall|i: int| 0 <= i < model_as_list(m).unwrap().len()
        ==> int_row_ok(#[trigger] model_as_list(m).unwrap()[i])
}

/// The integer lists of such a list, in order.
pub open spec fn rows_value(m: JsonModel) -> Seq<Seq<usize>> {
    model_as_list(m).unwrap().map_values(|x: JsonModel| int_row_value(x))
}

/// What extraction yields on a given document model: the start id, the
/// neighbour lists and the color list, or the first error in checking
/// order, each case exactly.
pub open spec fn puzzle_parse_spec(m: Option<JsonModel>) -> Result<
    (usize, Seq<Seq<usize>>, Seq<usize>),
    ParseError,
> {
    if m is None {
        Err(ParseError::InvalidJson)
    } else {
        let doc = m.unwrap();
        if model_get(doc, "start"@) is None {
            Err(ParseError::MissingStart)
        } else if model_as_usize(model_get(doc, "start"@).unwrap()) is None {
            Err(ParseError::InvalidStart)
        } else if model_get(doc, "neighbours"@) is None {
            Err(ParseError::MissingNeighbours)
        } else if !rows_ok(model_get(doc, "neighbours"@).unwrap()) {
            Err(ParseError::InvalidNeighbours)
        } else if model_get(doc, "colors"@) is None {
            Err(ParseError::MissingColors)
        } else if !int_row_ok(model_get(doc, "colors"@).unwrap()) {
            Err(ParseError::InvalidColors)
        } else {
            Ok((
                model_as_usize(model_get(doc, "start"@).unwrap()).unwrap(),
                rows_value(model_get(doc, "neighbours"@).unwrap()),
                int_row_value(model_get(doc, "colors"@).unwrap()),
            ))
        }
    }
}

/// The extraction result agrees with the extraction spec on the given
/// document model, field by field and error by error.
pub open spec fn parse_agrees(r: Result<PuzzleInput, ParseError>, m: Option<JsonModel>) -> bool {
    match puzzle_parse_spec(m) {
        Ok(q) => r matches Ok(p) && p.start == q.0
            && crate::graph::rows(p.neighbours@) == q.1 && p.colors@ == q.2,
        Err(e) => r matches Err(e2) && e2 == e,
    }
}

/// Reads one JSON value as a machine-sized non-negative integer.
fn value_as_usize(v: &serde_json::Value) -> (r: Option<usize>)
    ensures
        r == model_as_usize(value_model(*v)),
{
    match json_as_u64(v) {
        Some(x) => {
            if x > usize::MAX as u64 {
                None
            } else {
                Some(x as usize)
            }
        }
        None => None,
    }
}

/// Extracts the start node, neighbour lists and color ids from a JSON
/// puzzle description: exactly the fields and errors that
/// `puzzle_parse_spec` gives on the named model of the text. Every index
/// is then validated by `Graph::new` before anything is solved.
pub fn parse_puzzle(s: &str) -> (r: Result<PuzzleInput, ParseError>)
    ensures
        parse_agrees(r, json_of(s@)),
{
    let ghost m = json_of(s@);
    let document = match json_from_str(s) {
        Ok(v) => v,
        Err(_) => {
            return Err(ParseError::InvalidJson);
        }
    };
    let ghost doc = m.unwrap();

    let start_value = match json_get(&document, "start") {
        Some(v) => v,
        None => {
            return Err(ParseError::MissingStart);
        }
    };
    let start = match value_as_usize(start_value) {
        Some(x) => x,
        None => {
            return Err(ParseError::InvalidStart);
        }
    };

    let neighbours_value = match json_get(&document, "neighbours") {
        Some(v) => v,
        None => {
            return Err(ParseError::MissingNeighbours);
        }
    };
    let ghost nb_m = model_get(doc, "neighbours"@).unwrap();
    let neighbour_rows = match json_as_array(neighbours_value) {
        Some(a) => a,
        None => {
            return Err(ParseError::InvalidNeighbours);
        }
    };
    let ghost rows_m = model_as_list(nb_m).unwrap();
    let mut neighbours: Vec<Vec<usize>> = Vec::new();
    let mut i: usize = 0;
    while i < neighbour_rows.len()
        invariant
            m == json_of(s@),
            m matches Some(d) && d == doc,
            model_get(doc, "start"@) is Some,
            model_as_usize(model_get(doc, "start"@).unwrap()) is Some,
            model_get(doc, "neighbours"@) == Some(nb_m),
            model_as_list(nb_m) == Some(rows_m),
            neighbour_rows@.map_values(|x: serde_json::Value| value_model(x)) == rows_m,
            neighbour_rows@.len() == rows_m.len(),
            i <= rows_m.len(),
            neighbours@.len() == i,
            forall|k: int| 0 <= k < i ==> int_row_ok(#[trigger] rows_m[k]),
            forall|k: int| 0 <= k < i ==> (#[trigger] neighbours@[k])@ == int_row_value(rows_m[k]),
        decreases neighbour_rows@.len() - i,
    {
        proof {
            assert(value_model(neighbour_rows@[i as int]) == rows_m[i as int]);
        }
        let row = match json_as_array(&neighbour_rows[i]) {
            Some(a) => a,
            None => {
                proof {
                    assert(model_as_list(nb_m).unwrap() == rows_m);
                    assert(!int_row_ok(rows_m[i as int]));
                    if rows_ok(nb_m) {
                        assert(int_row_ok(model_as_list(nb_m).unwrap()[i as int]));
                        assert(false);
                    }
                }
                return Err(ParseError::InvalidNeighbours);
            }
        };
        let ghost row_m = model_as_list(rows_m[i as int]).unwrap();
        let mut entries: Vec<usize> = Vec::new();
        let mut j: usize = 0;
        while j < row.len()
            invariant
                m == json_of(s@),
                m matches Some(d) && d == doc,
                model_get(doc, "start"@) is Some,
                model_as_usize(model_get(doc, "start"@).unwrap()) is Some,
                model_get(doc, "neighbours"@) == Some(nb_m),
                model_as_list(nb_m) == Some(rows_m),
                i < rows_m.len(),
                model_as_list(rows_m[i as int]) == Some(row_m),
                row@.map_values(|x: serde_json::Value| value_model(x)) == row_m,
                row@.len() == row_m.len(),
                j <= row_m.len(),
                entries@.len() == j,
                forall|k: int| 0 <= k < j ==> model_as_usize(#[trigger] row_m[k]) is Some,
                forall|k: int| 0 <= k < j
                    ==> entries@[k] == model_as_usize(#[trigger] row_m[k]).unwrap(),
            decreases row@.len() - j,
        {
            proof {
                assert(value_model(row@[j as int]) == row_m[j as int]);
            }
            match value_as_usize(&row[j]) {
                Some(x) => {
                    entries.push(x);
                }
                None => {
                    proof {
                        assert(model_as_list(nb_m).unwrap() == rows_m);
                        assert(model_as_list(rows_m[i as int]).unwrap() == row_m);
                        assert(model_as_usize(row_m[j as int]) is None);
                        if int_row_ok(rows_m[i as int]) {
                            assert(model_as_usize(
                                model_as_list(rows_m[i as int]).unwrap()[j as int]) is Some);
                            assert(false);
                        }
                        if rows_ok(nb_m) {
                            assert(int_row_ok(model_as_list(nb_m).unwrap()[i as int]));
                            assert(false);
                        }
                    }
                    return Err(ParseError::InvalidNeighbours);
                }
            }
            j += 1;
        }
        proof {
            assert(model_as_list(rows_m[i as int]).unwrap() == row_m);
            assert forall|jj: int| 0 <= jj < model_as_list(rows_m[i as int]).unwrap().len()
                implies model_as_usize(
                    #[trigger] model_as_list(rows_m[i as int]).unwrap()[jj]) is Some by {
                assert(model_as_usize(row_m[jj]) is Some);
            }
            assert(int_row_ok(rows_m[i as int]));
            assert forall|jj: int| 0 <= jj < row_m.len() implies
                entries@[jj] == int_row_value(rows_m[i as int])[jj] by {
                assert(entries@[jj] == model_as_usize(row_m[jj]).unwrap());
            }
            assert(entries@ =~= int_row_value(rows_m[i as int]));
        }
        neighbours.push(entries);
        i += 1;
    }
    proof {
        assert(model_as_list(nb_m).unwrap() == rows_m);
        assert forall|ii: int| 0 <= ii < model_as_list(nb_m).unwrap().len()
            implies int_row_ok(#[trigger] model_as_list(nb_m).unwrap()[ii]) by {
            assert(int_row_ok(rows_m[ii]));
        }
        assert(rows_ok(nb_m));
    }

    let colors_value = match json_get(&document, "colors") {
        Some(v) => v,
        None => {
            return Err(ParseError::MissingColors);
        }
    };
    let ghost cl_m = model_get(doc, "colors"@).unwrap();
    let color_list = match json_as_array(colors_value) {
        Some(a) => a,
        None => {
            return Err(ParseError::InvalidColors);
        }
    };
    let ghost col_m = model_as_list(cl_m).unwrap();
    let mut colors: Vec<usize> = Vec::new();
    let mut k: usize = 0;
    while k < color_list.len()
        invariant
            m == json_of(s@),
            m matches Some(d) && d == doc,
            model_get(doc, "start"@) is Some,
            model_as_usize(model_get(doc, "start"@).unwrap()) is Some,
            model_get(doc, "neighbours"@) is Some,
            rows_ok(model_get(doc, "neighbours"@).unwrap()),
            model_get(doc, "colors"@) == Some(cl_m),
            model_as_list(cl_m) == Some(col_m),
            color_list@.map_values(|x: serde_json::Value| value_model(x)) == col_m,
            color_list@.len() == col_m.len(),
            k <= col_m.len(),
            colors@.len() == k,
            forall|kk: int| 0 <= kk < k ==> model_as_usize(#[trigger] col_m[kk]) is Some,
            forall|kk: int| 0 <= kk < k
                ==> colors@[kk] == model_as_usize(#[trigger] col_m[kk]).unwrap(),
        decreases color_list@.len() - k,
    {
        proof {
            assert(value_model(color_list@[k as int]) == col_m[k as int]);
        }
        match value_as_usize(&color_list[k]) {
            Some(x) => {
                colors.push(x);
            }
            None => {
                proof {
                    assert(model_as_list(cl_m).unwrap() == col_m);
                    assert(model_as_usize(col_m[k as int]) is None);
                    if int_row_ok(cl_m) {
                        assert(model_as_usize(
                            model_as_list(cl_m).unwrap()[k as int]) is Some);
                        assert(false);
                    }
                }
                return Err(ParseError::InvalidColors);
            }
        }
        k += 1;
    }
    proof {
        assert(model_as_list(cl_m).unwrap() == col_m);
        assert forall|kk: int| 0 <= kk < model_as_list(cl_m).unwrap().len()
            implies model_as_usize(#[trigger] model_as_list(cl_m).unwrap()[kk]) is Some by {
            assert(model_as_usize(col_m[kk]) is Some);
        }
        assert(int_row_ok(cl_m));
        assert forall|kk: int| 0 <= kk < col_m.len() implies
            colors@[kk] == int_row_value(cl_m)[kk] by {
            assert(colors@[kk] == model_as_usize(col_m[kk]).unwrap());
        }
        assert(colors@ =~= int_row_value(cl_m));
    }

    let result = PuzzleInput { start, neighbours, colors };
    proof {
        assert forall|kk: int| 0 <= kk < rows_m.len() implies
            crate::graph::rows(result.neighbours@)[kk] == rows_value(nb_m)[kk] by {
            assert(crate::graph::rows(result.neighbours@)[kk] == result.neighbours@[kk]@);
            assert(rows_value(nb_m)[kk] == int_row_value(rows_m[kk]));
        }
        assert(crate::graph::rows(result.neighbours@) =~= rows_value(nb_m));
    }
    Ok(result)
}

} // verus!

//! JSON values that are sent to the API server.

use vstd::prelude::*;

verus! {

/// A JSON value.
#[derive(Debug, PartialEq, Eq)]
pub enum Json {
    Number(i64),
    Text(String),
    List(Vec<Json>),
    /// The fields of an object, each name once.
    Object(Vec<JsonField>),
}

/// A field of a JSON object.
#[derive(Debug, PartialEq, Eq)]
pub struct JsonField {
    pub name: String,
    pub value: Json,
}

/// Model of [`Json`].
pub enum JsonView {
    Number(int),
    Text(Seq<char>),
    List(Seq<JsonView>),
    Object(Seq<JsonFieldView>),
}

/// Model of [`JsonField`].
pub struct JsonFieldView {
    pub name: Seq<char>,
    pub value: JsonView,
}

impl Json {
    /// The models of a list's items.
    pub open spec fn list_view(items: Vec<Json>) -> Seq<JsonView>
        decreases items,
    {
        Seq::new(
            items@.len(),
            |i: int|
                if 0 <= i < items@.len() {
                    items@[i].json_view()
                } else {
                    JsonView::Number(0)
                },
        )
    }

    /// The models of an object's fields.
    pub open spec fn fields_view(fields: Vec<JsonField>) -> Seq<JsonFieldView>
        decreases fields,
    {
        Seq::new(
            fields@.len(),
            |i: int|
                if 0 <= i < fields@.len() {
                    JsonFieldView {
                        name: fields@[i].name@,
                        value: fields@[i].value.json_view(),
                    }
                } else {
                    JsonFieldView { name: Seq::empty(), value: JsonView::Number(0) }
                },
        )
    }

    /// The model of the value.
    pub open spec fn json_view(self) -> JsonView
        decreases self,
    {
        match self {
            Json::Number(n) => JsonView::Number(n as int),
            Json::Text(s) => JsonView::Text(s@),
            Json::List(items) => JsonView::List(Self::list_view(items)),
            Json::Object(fields) => JsonView::Object(Self::fields_view(fields)),
        }
    }
}

impl View for Json {
    type V = JsonView;

    open spec fn view(&self) -> JsonView {
        self.json_view()
    }
}

impl DeepView for Json {
    type V = JsonView;

    open spec fn deep_view(&self) -> JsonView {
        self@
    }
}

impl JsonView {
    /// An object without fields.
    pub open spec fn object() -> JsonView {
        JsonView::Object(Seq::empty())
    }

    /// An object with one more field.
    pub open spec fn with(self, name: Seq<char>, value: JsonView) -> JsonView {
        match self {
            JsonView::Object(fields) => JsonView::Object(
                fields.push(JsonFieldView { name, value }),
            ),
            other => other,
        }
    }

    /// A list of one value.
    pub open spec fn list_of(item: JsonView) -> JsonView {
        JsonView::List(seq![item])
    }
}

impl Json {
    /// A text value.
    pub fn text(s: &str) -> (j: Json)
        ensures
            j@ == JsonView::Text(s@),
    {
        Json::Text(s.to_owned())
    }

    /// An object without fields.
    pub fn object() -> (j: Json)
        ensures
            j@ == JsonView::object(),
    {
        let j = Json::Object(Vec::new());
        assert(j@->Object_0 =~= Seq::<JsonFieldView>::empty());
        j
    }

    /// An object with one more field; any other value stays as it is.
    pub fn with(self, name: &str, value: Json) -> (j: Json)
        ensures
            j@ == self@.with(name@, value@),
    {
        match self {
            Json::Object(listed) => {
                let ghost old_fields = listed;
                let ghost added = JsonFieldView { name: name@, value: value@ };
                let mut fields = listed;
                fields.push(JsonField { name: name.to_owned(), value });
                let ghost new_fields = fields;
                assert(Self::fields_view(new_fields) =~= Self::fields_view(old_fields).push(added));
                Json::Object(fields)
            },
            other => other,
        }
    }

    /// A list of one value.
    pub fn list_of(item: Json) -> (j: Json)
        ensures
            j@ == JsonView::list_of(item@),
    {
        let ghost v = item@;
        let mut items: Vec<Json> = Vec::new();
        items.push(item);
        let j = Json::List(items);
        assert(j@->List_0 =~= seq![v]);
        j
    }
}

} // verus!

# batis_xml

A parser for MyBatis and iBatis mapper XML that flattens dynamic SQL, written in
Rust and verified with Verus.

A mapper file goes in, as text or as bytes in any encoding of the Encoding
Standard. Out come its statements, `<sql>` fragments and result maps, the
concrete shapes that each statement's SQL can take with the conditions of each,
the `<include>` references, and a list of diagnostics. Nothing is refused:
broken input gives what can be read of it, and a diagnostic for what cannot. Only
a root that is no mapper, an input over the cap and bytes that no encoding fits
give no mapper at all, and a diagnostic says which it was.

```rust
let result = batis_xml::parse_bytes(&bytes);
if let Some(mapper) = &result.mapper {
    for statement in &mapper.statements {
        println!("{:?} {:?}", statement.kind, statement.id);
    }
}
```

## What is proved

Every function under `src/` has a contract, and `parse`, `parse_bytes` and
`detect_dialect` accept every input. Their results are the values of the
specification functions in `parse`, so they depend on the input alone. Of every
result it is proved that

- every span lies in the text, and the parts of an element lie in the element;
- ids, attributes and placeholder paths are what the text holds at their spans;
- the statement of a `<selectKey>` follows the one it stands in, with an id made
  from the other's and, unless it names one, the other's database id;
- the offsets of a flattened text's map grow, and each has text behind it;
- statements, fragments and result maps come in document order;
- a statement has between one and 32 variants, or one text for more of them and
  a diagnostic that says so;
- a reference without a fragment is reported for MyBatis and never for iBatis;
- the dialect that is detected ahead of a parse is the dialect of the parse;
- an `<include>` at either end of a `<where>`, `<set>` or `<trim>` is reported;
- byte-order marks ahead of a text change nothing, and the bytes of a text that
  declares no encoding parse as the text does, with any number of marks ahead;
- a document in UTF-16 behind its byte-order mark parses as its text does.

The functions whose names start with `law_` state these and other facts that
relate several functions.

## Layout

| module | holds |
| --- | --- |
| `model` | the output types and their views |
| `text` | bytes and characters: cuts, trimming, searching |
| `encoding` | finding the encoding of a document and decoding it |
| `xml` | the token stream |
| `attrs` | attributes, read from the source bytes |
| `body` | the text and child tags of an element |
| `placeholder` | `#{..}`, `${..}`, `#..#` and `$..$` |
| `sql` | SQL text under construction, with its map to the source |
| `wrapper` | `<where>`, `<set>`, `<trim>` and the product of branches |
| `tags` | what opening a dynamic tag reads and records |
| `flatten` | all ways through a body |
| `union_walk` | the text of all branches, where there are too many ways |
| `includes` | references to fragments |
| `result_map` | column mappings |
| `statement` | statements, fragments and result maps |
| `mapper` | the children of the root |
| `parse` | the document |
| `order` | document order |
| `edges` | references at the ends of a wrapper |
| `codes` | which diagnostics there can be |
| `size` | how long a flattened text can get |

What is taken on trust stands in `xml` (the tokenizer of `quick-xml`), `body`
(its resolution of references) and `encoding` (`encoding_rs`, and the UTF-8
conversions of the standard library). Each such function says in its comment
what is claimed of it.

`app/` makes the parser available to JavaScript and gives the output its JSON
form.

[package]
name = "dimsafe"
version = "0.1.0"
edition = "2021"
publish = false

[dependencies]
unicode-ident = "1"
lalrpop-util = "0.22"
leptos = { version = "0.8", features = ["csr"] }
leptos-use = "0.16"
wasm-bindgen = "0.2"
web-sys = { version = "0.3", features = ["Window", "Document", "Element", "Node", "HtmlElement", "HtmlDivElement", "Range", "Selection", "Text", "DomRect", "DomTokenList", "CssStyleDeclaration", "HtmlCollection", "NodeList", "KeyboardEvent", "Storage"] }
log = "0.4"
console_log = "1"
console_error_panic_hook = "0.1"
serde = { version = "1", features = ["derive"] }
serde_json = "1"

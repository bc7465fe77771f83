use qrctrl::assets::{asset_content_type, asset_name, escape_html, index_page, read_str};

#[test]
fn html_metacharacters_are_escaped() {
    assert_eq!(escape_html(r#"<b>"Tom" & 'Jerry'</b>"#), "&lt;b&gt;&quot;Tom&quot; &amp; &#39;Jerry&#39;&lt;/b&gt;");
    assert_eq!(escape_html("设备 1"), "设备 1");
    assert_eq!(escape_html("&amp;"), "&amp;amp;");
}

#[test]
fn home_page_placeholders_are_filled() {
    let t = r#"<html data-theme="__THEME__"><head><title>__DEVICE_NAME__</title></head></html>"#;
    assert_eq!(
        index_page(t, "dark", "<PC>"),
        r#"<html data-theme="dark"><head><title>&lt;PC&gt;</title></head></html>"#
    );
    assert_eq!(index_page("no markers", "light", "x"), "no markers");
}

#[test]
fn embedded_files() {
    assert_eq!(read_str(Some(b"hello")), Some("hello"));
    assert_eq!(read_str(Some(&[0xff, 0xfe])), None);
    assert_eq!(read_str(None), None);
    assert_eq!(asset_name("/css/app.css"), "css/app.css");
    assert_eq!(asset_name("//js/x.js"), "js/x.js");
    assert_eq!(asset_name("a"), "a");
}

#[test]
fn content_types_of_assets() {
    assert_eq!(asset_content_type("css/app.css"), "text/css");
    assert_eq!(asset_content_type("js/app.js"), "text/javascript");
    assert_eq!(asset_content_type("noext"), "application/octet-stream");
}

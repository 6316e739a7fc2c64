//! The analyze report: assembling the report page from the serialized
//! stats, the client assets, and the watch flag. Writing the page to
//! the output directory is the caller's business.

use vstd::prelude::*;

use crate::text::{replace_all, spec_replace_all};

verus! {

pub struct Analyze {}

/// Whether the analyze view keeps watching: the flag is set and true.
pub open spec fn spec_watch_flag(watch: Option<bool>) -> bool {
    watch == Some(true)
}

/// The text the page embeds for the watch flag.
pub open spec fn spec_bool_text(b: bool) -> Seq<char> {
    if b {
        "true"@
    } else {
        "false"@
    }
}

/// The report page, with the client script's closing tags escaped so
/// the embedded bundle cannot end the surrounding script element.
pub open spec fn spec_render_analyze_html(
    css: Seq<char>,
    js: Seq<char>,
    stats_json: Seq<char>,
    is_watch: bool,
) -> Seq<char> {
    "<!DOCTYPE html>\n<html>\n  <head>\n    <meta charset=\"UTF-8\"/>\n    <meta name=\"viewport\" content=\"width=device-width, initial-scale=1\"/>\n    <style>"@
        + css
        + "</style>\n  </head>\n  <body>\n    <div id=\"root\"></div>\n    <script>\n      window.chartData = "@
        + stats_json + ";\n      window.hmrWatch = "@ + spec_bool_text(is_watch)
        + "\n    </script>\n    <script>"@ + spec_replace_all(js, "</script>"@, "<\\/script>"@)
        + "</script>\n  </body>\n</html>"@
}

impl Analyze {
    pub fn watch_flag(watch: &Option<bool>) -> (r: bool)
        ensures
            r == spec_watch_flag(*watch),
    {
        match watch {
            Some(w) => *w,
            None => false,
        }
    }

    /// Builds the report page from the serialized stats and assets.
    pub fn render_analyze_html(css: &str, js: &str, stats_json: &str, is_watch: bool) -> (r:
        String)
        ensures
            r@ == spec_render_analyze_html(css@, js@, stats_json@, is_watch),
    {
        proof {
            reveal_strlit("</script>");
        }
        let escaped_js = replace_all(js, "</script>", "<\\/script>");
        let watch_text = if is_watch {
            "true"
        } else {
            "false"
        };
        "<!DOCTYPE html>\n<html>\n  <head>\n    <meta charset=\"UTF-8\"/>\n    <meta name=\"viewport\" content=\"width=device-width, initial-scale=1\"/>\n    <style>".to_owned().concat(
            css,
        ).concat(
            "</style>\n  </head>\n  <body>\n    <div id=\"root\"></div>\n    <script>\n      window.chartData = ",
        ).concat(stats_json).concat(";\n      window.hmrWatch = ").concat(watch_text).concat(
            "\n    </script>\n    <script>",
        ).concat(escaped_js.as_str()).concat("</script>\n  </body>\n</html>")
    }
}

} // verus!

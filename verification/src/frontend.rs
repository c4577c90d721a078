use vstd::prelude::*;
use vstd::string::StringExecFns;

verus! {

/// A module card of the admin console.
#[derive(Clone, Copy, Debug)]
pub struct NavItem {
    pub id: &'static str,
    pub title: &'static str,
    pub description: &'static str,
}

/// The module cards of the dashboard, in the order they are shown.
pub fn dashboard_nav_items() -> (r: Vec<NavItem>)
    ensures
        r@.len() == 4,
        r@[0].id@ == "courses"@ && r@[0].title@ == "Courses"@,
        r@[0].description@ == "Create and manage class demand inputs."@,
        r@[1].id@ == "instructors"@ && r@[1].title@ == "Instructors"@,
        r@[1].description@ == "Maintain workload limits and assignment constraints."@,
        r@[2].id@ == "rooms"@ && r@[2].title@ == "Rooms"@,
        r@[2].description@ == "Track capacities and room availability."@,
        r@[3].id@ == "generation"@ && r@[3].title@ == "Schedule Generation"@,
        r@[3].description@ == "Run GA iterations and compare score history."@,
{
    let mut items: Vec<NavItem> = Vec::new();
    items.push(
        NavItem {
            id: "courses",
            title: "Courses",
            description: "Create and manage class demand inputs.",
        },
    );
    items.push(
        NavItem {
            id: "instructors",
            title: "Instructors",
            description: "Maintain workload limits and assignment constraints.",
        },
    );
    items.push(
        NavItem {
            id: "rooms",
            title: "Rooms",
            description: "Track capacities and room availability.",
        },
    );
    items.push(
        NavItem {
            id: "generation",
            title: "Schedule Generation",
            description: "Run GA iterations and compare score history.",
        },
    );
    items
}

/// The page around the rendered console: everything before the body's content.
pub open spec fn page_head() -> Seq<char> {
    r#"<!doctype html>
<html lang=\"en\">
<head>
<meta charset=\"utf-8\" />
<meta name=\"viewport\" content=\"width=device-width, initial-scale=1\" />
<title>ClassGA Console</title>
<style>
:root { font-family: Inter, system-ui, sans-serif; color-scheme: light dark; }
body { margin: 0; background: #0b1020; color: #e2e8f0; }
.layout { max-width: 1100px; margin: 0 auto; padding: 2rem 1rem 4rem; }
.hero { margin-bottom: 1.75rem; }
.eyebrow { text-transform: uppercase; letter-spacing: 0.08em; color: #93c5fd; font-size: 0.8rem; }
.grid { display: grid; grid-template-columns: repeat(auto-fit, minmax(220px, 1fr)); gap: 1rem; }
.card { border: 1px solid #334155; border-radius: 0.75rem; padding: 1rem; background: #131a2b; }
button { border-radius: 0.5rem; border: none; padding: 0.6rem 0.8rem; background: #3b82f6; color: white; cursor: pointer; }
.roadmap { margin-top: 1.75rem; border-left: 4px solid #3b82f6; padding-left: 1rem; }
</style>
</head>
<body>"#@
}

/// The page around the rendered console: everything after the body's content.
pub open spec fn page_tail() -> Seq<char> {
    r#"</body>
</html>"#@
}

/// The whole console page, with the rendered cards as the body.
pub fn dashboard_page(content: &str) -> (page: String)
    ensures
        page@ == page_head() + content@ + page_tail(),
{
    let mut page = String::from_str(r#"<!doctype html>
<html lang=\"en\">
<head>
<meta charset=\"utf-8\" />
<meta name=\"viewport\" content=\"width=device-width, initial-scale=1\" />
<title>ClassGA Console</title>
<style>
:root { font-family: Inter, system-ui, sans-serif; color-scheme: light dark; }
body { margin: 0; background: #0b1020; color: #e2e8f0; }
.layout { max-width: 1100px; margin: 0 auto; padding: 2rem 1rem 4rem; }
.hero { margin-bottom: 1.75rem; }
.eyebrow { text-transform: uppercase; letter-spacing: 0.08em; color: #93c5fd; font-size: 0.8rem; }
.grid { display: grid; grid-template-columns: repeat(auto-fit, minmax(220px, 1fr)); gap: 1rem; }
.card { border: 1px solid #334155; border-radius: 0.75rem; padding: 1rem; background: #131a2b; }
button { border-radius: 0.5rem; border: none; padding: 0.6rem 0.8rem; background: #3b82f6; color: white; cursor: pointer; }
.roadmap { margin-top: 1.75rem; border-left: 4px solid #3b82f6; padding-left: 1rem; }
</style>
</head>
<body>"#);
    page.append(content);
    page.append(r#"</body>
</html>"#);
    page
}

} // verus!

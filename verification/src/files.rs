//! The starting texts that are offered for a new diagram file.

use vstd::prelude::*;
use crate::text::{chars_of, same_chars};

verus! {

/// The starting text for the kind of diagram that `template` names; the
/// three-step flowchart for a name that is not known.
pub open spec fn template_text(template: Seq<char>) -> Seq<char> {
    if template == "flowchart"@ || template == "graph"@ {
        "graph TD\n    Start([Start]) --> Process[Process]\n    Process --> End([End])"@
    } else if template == "sequence"@ {
        "sequenceDiagram\n    participant A as Alice\n    participant B as Bob\n    A->>B: Hello\n    B->>A: Hi!"@
    } else if template == "class"@ {
        "classDiagram\n    Animal <|-- Duck\n    Animal <|-- Fish\n    Animal : +int age\n    Animal : +String gender"@
    } else if template == "state"@ {
        "stateDiagram-v2\n    [*] --> Active\n    Active --> Inactive\n    Inactive --> Active"@
    } else if template == "er"@ {
        "erDiagram\n    CUSTOMER ||--o{ ORDER : places\n    CUSTOMER ||--|{ DELIVERY-ADDRESS : has"@
    } else if template == "journey"@ {
        "journey\n    My day\n    I wake up, 5, \"Happy\"\n    I eat breakfast, 5, \"Hungry\"\n    I go to work, 2, \"Sad\""@
    } else {
        "graph TD\n    A[Start] --> B[Process]\n    B --> C[End]"@
    }
}

/// The starting text for the kind of diagram that `template` names.
pub fn get_template(template: &str) -> (r: &'static str)
    ensures
        r@ == template_text(template@),
{
    let name = chars_of(template);
    if same_chars(&name, &chars_of("flowchart")) || same_chars(&name, &chars_of("graph")) {
        "graph TD\n    Start([Start]) --> Process[Process]\n    Process --> End([End])"
    } else if same_chars(&name, &chars_of("sequence")) {
        "sequenceDiagram\n    participant A as Alice\n    participant B as Bob\n    A->>B: Hello\n    B->>A: Hi!"
    } else if same_chars(&name, &chars_of("class")) {
        "classDiagram\n    Animal <|-- Duck\n    Animal <|-- Fish\n    Animal : +int age\n    Animal : +String gender"
    } else if same_chars(&name, &chars_of("state")) {
        "stateDiagram-v2\n    [*] --> Active\n    Active --> Inactive\n    Inactive --> Active"
    } else if same_chars(&name, &chars_of("er")) {
        "erDiagram\n    CUSTOMER ||--o{ ORDER : places\n    CUSTOMER ||--|{ DELIVERY-ADDRESS : has"
    } else if same_chars(&name, &chars_of("journey")) {
        "journey\n    My day\n    I wake up, 5, \"Happy\"\n    I eat breakfast, 5, \"Hungry\"\n    I go to work, 2, \"Sad\""
    } else {
        "graph TD\n    A[Start] --> B[Process]\n    B --> C[End]"
    }
}

} // verus!

//! Style sheet and script of the page.

use vstd::prelude::*;

verus! {

pub const STYLE: &'static str = "\n*,*::before,*::after{box-sizing:border-box}\n:root{\ncolor-scheme:dark;\n--vellum:#17150f;--ink:#efe5d0;--gold:#c6a15b;--lapis:#3a95dc;\n--parchment:188,169,138;\n--p85:rgba(var(--parchment),.85);--p62:rgba(var(--parchment),.62);\n--p42:rgba(var(--parchment),.42);--p22:rgba(var(--parchment),.22);\n--p16:rgba(var(--parchment),.16);--p08:rgba(var(--parchment),.08);\n--p05:rgba(var(--parchment),.05);--p02:rgba(var(--parchment),.02);\n--ok:#8fb573;--warn:#c6a15b;--bad:#d2694f;\n--sans:\"IBM Plex Sans\",ui-sans-serif,system-ui,-apple-system,sans-serif;\n--mono:\"IBM Plex Mono\",ui-monospace,SFMono-Regular,Menlo,monospace;\n}\nhtml{-webkit-text-size-adjust:100%}\nbody{margin:0;background:var(--vellum);color:var(--p85);font-family:var(--sans);\nfont-size:15px;line-height:1.55;letter-spacing:-.005em;-webkit-font-smoothing:antialiased}\n#app{max-width:1180px;margin:0 auto;padding:clamp(28px,5vh,56px) clamp(16px,4vw,32px) 72px}\nh1,h2,h3{color:var(--ink);font-weight:400;margin:0}\ncode{font-family:var(--mono);color:var(--p62);font-size:.92em}\n.num{font-family:var(--mono);font-variant-numeric:tabular-nums;font-feature-settings:\"tnum\" 1}\n.ok{color:var(--ok)}.warn{color:var(--warn)}.bad{color:var(--bad)}.muted{color:var(--p42)}\n.eyebrow{font-size:10.5px;letter-spacing:.13em;text-transform:uppercase;color:var(--p42);\nfont-weight:500;margin:0 0 16px}\n\n.masthead{display:flex;flex-wrap:wrap;gap:20px;align-items:flex-end;\njustify-content:space-between;padding-bottom:22px;border-bottom:1px solid var(--p16)}\n.brand{display:flex;align-items:center;gap:14px}\n.mark{width:26px;height:26px;flex:none;border:1px solid var(--gold);\ntransform:rotate(45deg);position:relative}\n.mark::after{content:\"\";position:absolute;inset:5px;background:var(--gold);opacity:.55}\n.brand h1{font-size:22px;letter-spacing:.055em;text-transform:uppercase;line-height:1.1}\n.brand .sub{margin:2px 0 0;font-size:11px;letter-spacing:.1em;text-transform:uppercase;\ncolor:var(--p42)}\n.tags{display:flex;flex-wrap:wrap;gap:8px}\n.pill{border:1px solid var(--p22);border-radius:999px;padding:4px 12px;font-size:11px;\nletter-spacing:.08em;text-transform:uppercase;color:var(--p62);white-space:nowrap}\n.pill.env{border-color:rgba(198,161,91,.45);color:var(--gold)}\n\n.statusbar{display:flex;flex-wrap:wrap;gap:12px 24px;align-items:center;\njustify-content:space-between;padding:16px 0 30px;border-bottom:1px solid var(--p08)}\n.chips{display:flex;flex-wrap:wrap;gap:8px}\n.chip{display:inline-flex;align-items:center;gap:7px;border:1px solid var(--p16);\nborder-radius:4px;padding:5px 11px;font-size:11.5px;letter-spacing:.06em;\ntext-transform:uppercase;color:var(--p62);background:var(--p02)}\n.chip .dot{width:6px;height:6px;border-radius:50%;flex:none;background:currentColor}\n.chip.is-ok{color:var(--ok);border-color:rgba(143,181,115,.3)}\n.chip.is-bad{color:var(--bad);border-color:rgba(210,105,79,.35)}\n.chip b{font-weight:500;font-family:var(--mono)}\n.updated{display:flex;align-items:center;gap:9px;font-size:12px;color:var(--p42)}\n.live{width:6px;height:6px;border-radius:50%;background:var(--ok);flex:none;\nanimation:pulse 2.4s ease-in-out infinite}\n@keyframes pulse{0%,100%{opacity:1}50%{opacity:.25}}\n\n.kpis{display:grid;grid-template-columns:repeat(4,1fr);gap:1px;background:var(--p16);\nborder:1px solid var(--p16);margin:30px 0 34px}\n.kpi{background:var(--vellum);padding:20px 22px 22px}\n.kpi .figure{font-family:var(--mono);font-variant-numeric:tabular-nums;font-size:30px;\nline-height:1.1;color:var(--ink);margin:0;letter-spacing:-.02em}\n.kpi .figure.warn{color:var(--warn)}.kpi .figure.bad{color:var(--bad)}\n.kpi .unit{margin:7px 0 0;font-size:11.5px;color:var(--p42);letter-spacing:.02em}\n.kpi .eyebrow{margin-bottom:12px}\n\n.card{border:1px solid var(--p16);background:var(--p02);padding:22px 24px 24px;\nmargin-bottom:20px;min-width:0;overflow:hidden}\n.grid{display:grid;grid-template-columns:repeat(auto-fit,minmax(420px,1fr));gap:20px}\n.grid .card{margin:0}\n.card .rows+.note,.card .meter+.rows{margin-top:22px}\n\ntable{width:100%;border-collapse:collapse;font-size:13.5px}\nthead th{font-size:10.5px;letter-spacing:.11em;text-transform:uppercase;color:var(--p42);\nfont-weight:500;text-align:right;padding:0 0 12px 16px;border-bottom:1px solid var(--p16);\nwhite-space:nowrap}\nthead th:first-child{text-align:left;padding:0 16px 12px 0}\ntbody th,tbody td{padding:13px 0;border-bottom:1px solid var(--p08);text-align:right;\nfont-family:var(--mono);font-variant-numeric:tabular-nums;white-space:nowrap}\ntbody th{font-weight:400;text-align:left;color:var(--ink);font-size:13px;padding-right:16px}\ntbody td{padding-left:16px}\ntbody tr:last-child th,tbody tr:last-child td{border-bottom:0}\n.wrap{overflow-x:auto;margin:0 -4px;padding:0 4px}\n.errcell{display:flex;flex-direction:column;align-items:flex-end;gap:5px}\n.errbar{width:52px;height:2px;background:var(--p08)}\n.errbar i{display:block;height:100%;background:var(--bad)}\n\n.rows{list-style:none;margin:0;padding:0}\n.rows li{display:flex;justify-content:space-between;gap:18px;padding:11px 0;\nborder-bottom:1px solid var(--p08);font-size:13.5px}\n.rows li:last-child{border-bottom:0}\n.rows .k{color:var(--p62)}\n.rows .v{font-family:var(--mono);font-variant-numeric:tabular-nums;color:var(--ink);\ntext-align:right;white-space:nowrap}\n.rows .v.wrap-any{white-space:normal;overflow-wrap:anywhere;word-break:break-all;min-width:0}\n\n.meter{margin-top:22px}\n.meter:first-of-type{margin-top:0}\n.meter-head{display:flex;justify-content:space-between;gap:16px;font-size:12.5px;\nalign-items:baseline;margin-bottom:9px}\n.meter-head .k{color:var(--p62)}\n.meter-head .v{font-family:var(--mono);font-variant-numeric:tabular-nums;color:var(--p85);\nwhite-space:nowrap}\n.meter-head .v.warn{color:var(--warn)}\n.meter-head .v.bad{color:var(--bad)}\n.meter-foot{margin:9px 0 0;font-size:11.5px;color:var(--p42);font-family:var(--mono);\nfont-variant-numeric:tabular-nums}\n.bar{height:3px;background:var(--p08);overflow:hidden}\n.bar i{display:block;height:100%;background:var(--p42)}\n.bar i.warn{background:var(--warn)}\n.bar i.bad{background:var(--bad)}\n\n.alerts{list-style:none;margin:0;padding:0}\n.alerts li{border-left:2px solid var(--p22);padding:2px 0 2px 14px;margin-bottom:16px;\nfont-size:13.5px}\n.alerts li:last-child{margin-bottom:0}\n.alerts li.is-bad{border-left-color:var(--bad)}\n.alerts li.is-ok{border-left-color:var(--ok)}\n.alerts .name{color:var(--ink);font-family:var(--mono);font-size:13px}\n.alerts .detail{margin:3px 0 0;color:var(--p62)}\n.alerts .when{margin:3px 0 0;font-size:11.5px;color:var(--p42);font-family:var(--mono)}\n.empty{color:var(--p42);font-size:13.5px;margin:0}\n\n.note{border:1px solid var(--p08);background:transparent;padding:20px 24px;\nfont-size:12.5px;color:var(--p42);line-height:1.7;margin:0}\n.note strong{color:var(--p62);font-weight:500}\n.note code{display:block;margin-top:8px;white-space:pre-wrap;overflow-wrap:anywhere;\nword-break:break-all;line-height:1.5}\n\n.topo{display:flex;flex-direction:column;align-items:center;gap:0;margin:6px 0 22px}\n.node{border:1px solid var(--p22);background:var(--p02);padding:12px 18px;min-width:220px;\nmax-width:340px;text-align:center}\n.node .desc{font-size:11.5px;color:var(--p62);margin:7px 0 0;line-height:1.45}\n.node .meta.warn{color:var(--warn)}.node .meta.bad{color:var(--bad)}\n.tables{width:100%;display:grid;grid-template-columns:repeat(auto-fit,minmax(240px,1fr));\ngap:12px;margin-top:26px}\n.tables .node{min-width:0;max-width:none;text-align:left;padding:12px 14px}\n.tables .node .meter{margin-top:10px}\n.tables .node .meter-foot{margin-top:6px}\n.node.planned{opacity:.55;border-style:dashed}\n.node .kv{font-family:var(--mono);font-size:11.5px;color:var(--p62);margin:4px 0 0;\noverflow-wrap:anywhere}\n.node .kv b{color:var(--p85);font-weight:500}\n.topo .section{width:100%;margin-top:24px;font-size:10.5px;letter-spacing:.13em;\ntext-transform:uppercase;color:var(--p42);text-align:left}\n.explain{margin:0;display:grid;grid-template-columns:minmax(120px,180px) 1fr;gap:14px 22px;\nfont-size:13.5px}\n.explain dt{color:var(--ink);font-family:var(--mono);font-size:12.5px;padding-top:2px}\n.explain dd{margin:0;color:var(--p62);line-height:1.6}\n.explain dd b{color:var(--p85);font-weight:500;font-family:var(--mono);font-size:.95em}\n@media (max-width:720px){.explain{grid-template-columns:1fr;gap:6px 0}.explain dd{margin-bottom:10px}}\n.node .role{font-size:10.5px;letter-spacing:.13em;text-transform:uppercase;color:var(--p42);\nmargin:0 0 4px}\n.node .id{font-family:var(--mono);font-size:13px;color:var(--ink);margin:0;\noverflow-wrap:anywhere}\n.node .meta{font-family:var(--mono);font-size:11.5px;color:var(--p62);margin:5px 0 0;\noverflow-wrap:anywhere}\n.node.coord{border-color:rgba(198,161,91,.55)}\n.node.is-ok{border-color:rgba(143,181,115,.5)}\n.node.is-bad{border-color:rgba(210,105,79,.6)}\n.node.is-warn{border-color:rgba(198,161,91,.6)}\n.trunk{width:1px;height:22px;background:var(--p22)}\n.bus{position:relative;width:100%;display:flex;justify-content:center;gap:16px;\nflex-wrap:wrap;padding-top:22px}\n.bus::before{content:\"\";position:absolute;left:10%;right:10%;top:0;height:1px;\nbackground:var(--p22)}\n.bus .leaf{position:relative}\n.bus .leaf::before{content:\"\";position:absolute;left:50%;top:-22px;width:1px;height:22px;\nbackground:var(--p22)}\n.node .state{display:inline-block;margin-top:7px;font-size:10.5px;letter-spacing:.1em;\ntext-transform:uppercase}\n.node.is-ok .state{color:var(--ok)}.node.is-bad .state{color:var(--bad)}\n.node.is-warn .state{color:var(--warn)}\n@media (max-width:900px){.kpis{grid-template-columns:repeat(2,1fr)}}\n@media (max-width:720px){\n#app{padding-bottom:48px}\n.kpis{grid-template-columns:1fr}\n.grid{grid-template-columns:1fr}\n.masthead,.statusbar{align-items:flex-start;flex-direction:column}\n.kpi .figure{font-size:26px}\n}\n@media (prefers-reduced-motion:reduce){*{animation:none!important;transition:none!important}}\n";

pub const SCRIPT: &'static str = "\n(function () {\n  var PERIOD = 15000;\n  var timer;\n  function schedule() { clearTimeout(timer); timer = setTimeout(run, PERIOD); }\n  function run() {\n    if (document.hidden) { schedule(); return; }\n    fetch(location.href, { cache: 'no-store', credentials: 'same-origin' })\n      .then(function (response) { return response.ok ? response.text() : null; })\n      .then(function (text) {\n        if (!text) return;\n        var next = new DOMParser().parseFromString(text, 'text/html').getElementById('app');\n        var current = document.getElementById('app');\n        if (next && current) current.replaceWith(next);\n      })\n      .catch(function () {})\n      .then(schedule);\n  }\n  document.addEventListener('visibilitychange', function () {\n    if (!document.hidden) { clearTimeout(timer); run(); }\n  });\n  schedule();\n})();\n";

} // verus!

//! The multiplicative group modulo `P`: seven generates it, so every residue
//! but zero has its power `P - 1` equal to one, and its power `P - 2` for an
//! inverse.
use crate::field;
use crate::field::P;
use vstd::arithmetic::div_mod::*;
use vstd::arithmetic::mul::*;
use vstd::arithmetic::power;
use vstd::prelude::*;
use vstd::set_lib::*;

verus! {

/// The order of the group.
pub open spec fn group_order() -> nat {
    0xFFFF_FFFF_0000_0000
}

/// Multiplying two powers of seven.
proof fn lemma_product_step(d: nat, x: int, e: nat, y: int, z: int)
    requires
        field::residue(power::pow(7, d)) == x,
        field::residue(power::pow(7, e)) == y,
        field::residue(x * y) == z,
    ensures
        field::residue(power::pow(7, d + e)) == z,
{
    power::lemma_pow_adds(7, d, e);
    lemma_mod_twice(power::pow(7, d), P as int);
    lemma_mod_twice(power::pow(7, e), P as int);
    field::lemma_product_residue(power::pow(7, d), x, power::pow(7, e), y);
}

/// Powers of seven with exponents `2^j`, up to `2^32`.
proof fn lemma_power_32()
    ensures
        field::residue(power::pow(7, 4294967296)) == 12275445934081160404,
{
    power::lemma_pow1(7);
    lemma_product_step(1, 7, 1, 7, 49);
    lemma_product_step(2, 49, 2, 49, 2401);
    lemma_product_step(4, 2401, 4, 2401, 5764801);
    lemma_product_step(8, 5764801, 8, 5764801, 33232930569601);
    lemma_product_step(16, 33232930569601, 16, 33232930569601, 3732854072722565977);
    lemma_product_step(32, 3732854072722565977, 32, 3732854072722565977, 11250886851934520606);
    lemma_product_step(64, 11250886851934520606, 64, 11250886851934520606, 12159723539389677939);
    lemma_product_step(128, 12159723539389677939, 128, 12159723539389677939, 1536671775522476176);
    lemma_product_step(256, 1536671775522476176, 256, 1536671775522476176, 18371408314118145657);
    lemma_product_step(512, 18371408314118145657, 512, 18371408314118145657, 2431605942540367610);
    lemma_product_step(1024, 2431605942540367610, 1024, 2431605942540367610, 6358221588783459004);
    lemma_product_step(2048, 6358221588783459004, 2048, 6358221588783459004, 10083885515493449909);
    lemma_product_step(
        4096,
        10083885515493449909,
        4096,
        10083885515493449909,
        15094611910849701842,
    );
    lemma_product_step(
        8192,
        15094611910849701842,
        8192,
        15094611910849701842,
        18060412910171584788,
    );
    lemma_product_step(
        16384,
        18060412910171584788,
        16384,
        18060412910171584788,
        10529651373896570371,
    );
    lemma_product_step(
        32768,
        10529651373896570371,
        32768,
        10529651373896570371,
        11156834669773791359,
    );
    lemma_product_step(
        65536,
        11156834669773791359,
        65536,
        11156834669773791359,
        11840798296997857860,
    );
    lemma_product_step(
        131072,
        11840798296997857860,
        131072,
        11840798296997857860,
        1447330804268045396,
    );
    lemma_product_step(
        262144,
        1447330804268045396,
        262144,
        1447330804268045396,
        15265864706138236984,
    );
    lemma_product_step(
        524288,
        15265864706138236984,
        524288,
        15265864706138236984,
        12990112920302977158,
    );
    lemma_product_step(
        1048576,
        12990112920302977158,
        1048576,
        12990112920302977158,
        16491641580159807679,
    );
    lemma_product_step(
        2097152,
        16491641580159807679,
        2097152,
        16491641580159807679,
        17642952523097762870,
    );
    lemma_product_step(
        4194304,
        17642952523097762870,
        4194304,
        17642952523097762870,
        4419967652436713981,
    );
    lemma_product_step(
        8388608,
        4419967652436713981,
        8388608,
        4419967652436713981,
        7206579306846404579,
    );
    lemma_product_step(
        16777216,
        7206579306846404579,
        16777216,
        7206579306846404579,
        17869454728573311546,
    );
    lemma_product_step(
        33554432,
        17869454728573311546,
        33554432,
        17869454728573311546,
        4919185416341570378,
    );
    lemma_product_step(
        67108864,
        4919185416341570378,
        67108864,
        4919185416341570378,
        14445320067108370181,
    );
    lemma_product_step(
        134217728,
        14445320067108370181,
        134217728,
        14445320067108370181,
        17666966662873528270,
    );
    lemma_product_step(
        268435456,
        17666966662873528270,
        268435456,
        17666966662873528270,
        5473358340599679662,
    );
    lemma_product_step(
        536870912,
        5473358340599679662,
        536870912,
        5473358340599679662,
        4120449531758749877,
    );
    lemma_product_step(
        1073741824,
        4120449531758749877,
        1073741824,
        4120449531758749877,
        17380019310548783236,
    );
    lemma_product_step(
        2147483648,
        17380019310548783236,
        2147483648,
        17380019310548783236,
        12275445934081160404,
    );
}

/// The power `(P - 1) / 3` of seven is not one.
proof fn lemma_cofactor_3()
    ensures
        field::residue(power::pow(7, 6148914689804861440)) != 1,
{
    lemma_power_32();
    lemma_product_step(
        4294967296,
        12275445934081160404,
        4294967296,
        12275445934081160404,
        4756475762779100925,
    );
    lemma_product_step(
        8589934592,
        4756475762779100925,
        8589934592,
        4756475762779100925,
        8312008622371998338,
    );
    lemma_product_step(
        17179869184,
        8312008622371998338,
        17179869184,
        8312008622371998338,
        3688660304411827445,
    );
    lemma_product_step(
        34359738368,
        3688660304411827445,
        34359738368,
        3688660304411827445,
        6534114114080170934,
    );
    lemma_product_step(
        68719476736,
        6534114114080170934,
        68719476736,
        6534114114080170934,
        12241777603010464820,
    );
    lemma_product_step(
        137438953472,
        12241777603010464820,
        137438953472,
        12241777603010464820,
        6822456961749002749,
    );
    lemma_product_step(
        274877906944,
        6822456961749002749,
        274877906944,
        6822456961749002749,
        14740284407083446365,
    );
    lemma_product_step(
        549755813888,
        14740284407083446365,
        549755813888,
        14740284407083446365,
        14198376421529404772,
    );
    lemma_product_step(
        1099511627776,
        14198376421529404772,
        1099511627776,
        14198376421529404772,
        16372603252271478917,
    );
    lemma_product_step(
        2199023255552,
        16372603252271478917,
        2199023255552,
        16372603252271478917,
        6094962593300533783,
    );
    lemma_product_step(
        4398046511104,
        6094962593300533783,
        4398046511104,
        6094962593300533783,
        12855798221536971597,
    );
    lemma_product_step(
        8796093022208,
        12855798221536971597,
        8796093022208,
        12855798221536971597,
        4570035464479216815,
    );
    lemma_product_step(
        17592186044416,
        4570035464479216815,
        17592186044416,
        4570035464479216815,
        13312966101283008305,
    );
    lemma_product_step(
        35184372088832,
        13312966101283008305,
        35184372088832,
        13312966101283008305,
        17717521521350689785,
    );
    lemma_product_step(
        70368744177664,
        17717521521350689785,
        70368744177664,
        17717521521350689785,
        2579852125121816621,
    );
    lemma_product_step(
        140737488355328,
        2579852125121816621,
        140737488355328,
        2579852125121816621,
        5647278486080789199,
    );
    lemma_product_step(
        281474976710656,
        5647278486080789199,
        4294967296,
        12275445934081160404,
        3325199773236460081,
    );
    lemma_product_step(
        281479271677952,
        3325199773236460081,
        281479271677952,
        3325199773236460081,
        11594917091220031683,
    );
    lemma_product_step(
        562958543355904,
        11594917091220031683,
        562958543355904,
        11594917091220031683,
        335304168899516603,
    );
    lemma_product_step(
        1125917086711808,
        335304168899516603,
        1125917086711808,
        335304168899516603,
        5878586773437569563,
    );
    lemma_product_step(
        2251834173423616,
        5878586773437569563,
        2251834173423616,
        5878586773437569563,
        14115945277585684606,
    );
    lemma_product_step(
        4503668346847232,
        14115945277585684606,
        4503668346847232,
        14115945277585684606,
        4530885910609711335,
    );
    lemma_product_step(
        9007336693694464,
        4530885910609711335,
        9007336693694464,
        4530885910609711335,
        11520323530109515181,
    );
    lemma_product_step(
        18014673387388928,
        11520323530109515181,
        18014673387388928,
        11520323530109515181,
        14300666094211830646,
    );
    lemma_product_step(
        36029346774777856,
        14300666094211830646,
        36029346774777856,
        14300666094211830646,
        15483861228328778163,
    );
    lemma_product_step(
        72058693549555712,
        15483861228328778163,
        281479271677952,
        3325199773236460081,
        8735829848502199042,
    );
    lemma_product_step(
        72340172821233664,
        8735829848502199042,
        72340172821233664,
        8735829848502199042,
        15631128954113459258,
    );
    lemma_product_step(
        144680345642467328,
        15631128954113459258,
        144680345642467328,
        15631128954113459258,
        15359164688213994325,
    );
    lemma_product_step(
        289360691284934656,
        15359164688213994325,
        289360691284934656,
        15359164688213994325,
        6837365777759236146,
    );
    lemma_product_step(
        578721382569869312,
        6837365777759236146,
        578721382569869312,
        6837365777759236146,
        3643932312469289124,
    );
    lemma_product_step(
        1157442765139738624,
        3643932312469289124,
        72340172821233664,
        8735829848502199042,
        12030049465912850429,
    );
    lemma_product_step(
        1229782937960972288,
        12030049465912850429,
        1229782937960972288,
        12030049465912850429,
        5827060148806575656,
    );
    lemma_product_step(
        2459565875921944576,
        5827060148806575656,
        2459565875921944576,
        5827060148806575656,
        3296831073940435226,
    );
    lemma_product_step(
        4919131751843889152,
        3296831073940435226,
        1229782937960972288,
        12030049465912850429,
        18446744065119617025,
    );
}

/// The power `(P - 1) / 5` of seven is not one.
proof fn lemma_cofactor_5()
    ensures
        field::residue(power::pow(7, 3689348813882916864)) != 1,
{
    lemma_power_32();
    lemma_product_step(
        4294967296,
        12275445934081160404,
        4294967296,
        12275445934081160404,
        4756475762779100925,
    );
    lemma_product_step(
        8589934592,
        4756475762779100925,
        8589934592,
        4756475762779100925,
        8312008622371998338,
    );
    lemma_product_step(
        17179869184,
        8312008622371998338,
        17179869184,
        8312008622371998338,
        3688660304411827445,
    );
    lemma_product_step(
        34359738368,
        3688660304411827445,
        34359738368,
        3688660304411827445,
        6534114114080170934,
    );
    lemma_product_step(
        68719476736,
        6534114114080170934,
        68719476736,
        6534114114080170934,
        12241777603010464820,
    );
    lemma_product_step(
        137438953472,
        12241777603010464820,
        137438953472,
        12241777603010464820,
        6822456961749002749,
    );
    lemma_product_step(
        274877906944,
        6822456961749002749,
        274877906944,
        6822456961749002749,
        14740284407083446365,
    );
    lemma_product_step(
        549755813888,
        14740284407083446365,
        549755813888,
        14740284407083446365,
        14198376421529404772,
    );
    lemma_product_step(
        1099511627776,
        14198376421529404772,
        1099511627776,
        14198376421529404772,
        16372603252271478917,
    );
    lemma_product_step(
        2199023255552,
        16372603252271478917,
        2199023255552,
        16372603252271478917,
        6094962593300533783,
    );
    lemma_product_step(
        4398046511104,
        6094962593300533783,
        4398046511104,
        6094962593300533783,
        12855798221536971597,
    );
    lemma_product_step(
        8796093022208,
        12855798221536971597,
        8796093022208,
        12855798221536971597,
        4570035464479216815,
    );
    lemma_product_step(
        17592186044416,
        4570035464479216815,
        17592186044416,
        4570035464479216815,
        13312966101283008305,
    );
    lemma_product_step(
        35184372088832,
        13312966101283008305,
        35184372088832,
        13312966101283008305,
        17717521521350689785,
    );
    lemma_product_step(
        70368744177664,
        17717521521350689785,
        70368744177664,
        17717521521350689785,
        2579852125121816621,
    );
    lemma_product_step(
        140737488355328,
        2579852125121816621,
        140737488355328,
        2579852125121816621,
        5647278486080789199,
    );
    lemma_product_step(
        281474976710656,
        5647278486080789199,
        4294967296,
        12275445934081160404,
        3325199773236460081,
    );
    lemma_product_step(
        281479271677952,
        3325199773236460081,
        281479271677952,
        3325199773236460081,
        11594917091220031683,
    );
    lemma_product_step(
        562958543355904,
        11594917091220031683,
        562958543355904,
        11594917091220031683,
        335304168899516603,
    );
    lemma_product_step(
        1125917086711808,
        335304168899516603,
        1125917086711808,
        335304168899516603,
        5878586773437569563,
    );
    lemma_product_step(
        2251834173423616,
        5878586773437569563,
        2251834173423616,
        5878586773437569563,
        14115945277585684606,
    );
    lemma_product_step(
        4503668346847232,
        14115945277585684606,
        4503668346847232,
        14115945277585684606,
        4530885910609711335,
    );
    lemma_product_step(
        9007336693694464,
        4530885910609711335,
        9007336693694464,
        4530885910609711335,
        11520323530109515181,
    );
    lemma_product_step(
        18014673387388928,
        11520323530109515181,
        18014673387388928,
        11520323530109515181,
        14300666094211830646,
    );
    lemma_product_step(
        36029346774777856,
        14300666094211830646,
        36029346774777856,
        14300666094211830646,
        15483861228328778163,
    );
    lemma_product_step(
        72058693549555712,
        15483861228328778163,
        281479271677952,
        3325199773236460081,
        8735829848502199042,
    );
    lemma_product_step(
        72340172821233664,
        8735829848502199042,
        72340172821233664,
        8735829848502199042,
        15631128954113459258,
    );
    lemma_product_step(
        144680345642467328,
        15631128954113459258,
        144680345642467328,
        15631128954113459258,
        15359164688213994325,
    );
    lemma_product_step(
        289360691284934656,
        15359164688213994325,
        289360691284934656,
        15359164688213994325,
        6837365777759236146,
    );
    lemma_product_step(
        578721382569869312,
        6837365777759236146,
        578721382569869312,
        6837365777759236146,
        3643932312469289124,
    );
    lemma_product_step(
        1157442765139738624,
        3643932312469289124,
        72340172821233664,
        8735829848502199042,
        12030049465912850429,
    );
    lemma_product_step(
        1229782937960972288,
        12030049465912850429,
        1229782937960972288,
        12030049465912850429,
        5827060148806575656,
    );
    lemma_product_step(
        2459565875921944576,
        5827060148806575656,
        1229782937960972288,
        12030049465912850429,
        1373043270956696022,
    );
}

/// The power `(P - 1) / 17` of seven is not one.
proof fn lemma_cofactor_17()
    ensures
        field::residue(power::pow(7, 1085102592318504960)) != 1,
{
    lemma_power_32();
    lemma_product_step(
        4294967296,
        12275445934081160404,
        4294967296,
        12275445934081160404,
        4756475762779100925,
    );
    lemma_product_step(
        8589934592,
        4756475762779100925,
        8589934592,
        4756475762779100925,
        8312008622371998338,
    );
    lemma_product_step(
        17179869184,
        8312008622371998338,
        17179869184,
        8312008622371998338,
        3688660304411827445,
    );
    lemma_product_step(
        34359738368,
        3688660304411827445,
        34359738368,
        3688660304411827445,
        6534114114080170934,
    );
    lemma_product_step(
        68719476736,
        6534114114080170934,
        68719476736,
        6534114114080170934,
        12241777603010464820,
    );
    lemma_product_step(
        137438953472,
        12241777603010464820,
        137438953472,
        12241777603010464820,
        6822456961749002749,
    );
    lemma_product_step(
        274877906944,
        6822456961749002749,
        274877906944,
        6822456961749002749,
        14740284407083446365,
    );
    lemma_product_step(
        549755813888,
        14740284407083446365,
        549755813888,
        14740284407083446365,
        14198376421529404772,
    );
    lemma_product_step(
        1099511627776,
        14198376421529404772,
        1099511627776,
        14198376421529404772,
        16372603252271478917,
    );
    lemma_product_step(
        2199023255552,
        16372603252271478917,
        2199023255552,
        16372603252271478917,
        6094962593300533783,
    );
    lemma_product_step(
        4398046511104,
        6094962593300533783,
        4398046511104,
        6094962593300533783,
        12855798221536971597,
    );
    lemma_product_step(
        8796093022208,
        12855798221536971597,
        8796093022208,
        12855798221536971597,
        4570035464479216815,
    );
    lemma_product_step(
        17592186044416,
        4570035464479216815,
        17592186044416,
        4570035464479216815,
        13312966101283008305,
    );
    lemma_product_step(
        35184372088832,
        13312966101283008305,
        35184372088832,
        13312966101283008305,
        17717521521350689785,
    );
    lemma_product_step(
        70368744177664,
        17717521521350689785,
        70368744177664,
        17717521521350689785,
        2579852125121816621,
    );
    lemma_product_step(
        140737488355328,
        2579852125121816621,
        140737488355328,
        2579852125121816621,
        5647278486080789199,
    );
    lemma_product_step(
        281474976710656,
        5647278486080789199,
        4294967296,
        12275445934081160404,
        3325199773236460081,
    );
    lemma_product_step(
        281479271677952,
        3325199773236460081,
        281479271677952,
        3325199773236460081,
        11594917091220031683,
    );
    lemma_product_step(
        562958543355904,
        11594917091220031683,
        562958543355904,
        11594917091220031683,
        335304168899516603,
    );
    lemma_product_step(
        1125917086711808,
        335304168899516603,
        1125917086711808,
        335304168899516603,
        5878586773437569563,
    );
    lemma_product_step(
        2251834173423616,
        5878586773437569563,
        2251834173423616,
        5878586773437569563,
        14115945277585684606,
    );
    lemma_product_step(
        4503668346847232,
        14115945277585684606,
        4503668346847232,
        14115945277585684606,
        4530885910609711335,
    );
    lemma_product_step(
        9007336693694464,
        4530885910609711335,
        9007336693694464,
        4530885910609711335,
        11520323530109515181,
    );
    lemma_product_step(
        18014673387388928,
        11520323530109515181,
        18014673387388928,
        11520323530109515181,
        14300666094211830646,
    );
    lemma_product_step(
        36029346774777856,
        14300666094211830646,
        36029346774777856,
        14300666094211830646,
        15483861228328778163,
    );
    lemma_product_step(
        72058693549555712,
        15483861228328778163,
        281479271677952,
        3325199773236460081,
        8735829848502199042,
    );
    lemma_product_step(
        72340172821233664,
        8735829848502199042,
        72340172821233664,
        8735829848502199042,
        15631128954113459258,
    );
    lemma_product_step(
        144680345642467328,
        15631128954113459258,
        144680345642467328,
        15631128954113459258,
        15359164688213994325,
    );
    lemma_product_step(
        289360691284934656,
        15359164688213994325,
        72340172821233664,
        8735829848502199042,
        13370069422181634283,
    );
    lemma_product_step(
        361700864106168320,
        13370069422181634283,
        361700864106168320,
        13370069422181634283,
        13510478651750875146,
    );
    lemma_product_step(
        723401728212336640,
        13510478651750875146,
        361700864106168320,
        13370069422181634283,
        16301593560560007290,
    );
}

/// The power `(P - 1) / 257` of seven is not one.
proof fn lemma_cofactor_257()
    ensures
        field::residue(power::pow(7, 71777214277877760)) != 1,
{
    lemma_power_32();
    lemma_product_step(
        4294967296,
        12275445934081160404,
        4294967296,
        12275445934081160404,
        4756475762779100925,
    );
    lemma_product_step(
        8589934592,
        4756475762779100925,
        8589934592,
        4756475762779100925,
        8312008622371998338,
    );
    lemma_product_step(
        17179869184,
        8312008622371998338,
        17179869184,
        8312008622371998338,
        3688660304411827445,
    );
    lemma_product_step(
        34359738368,
        3688660304411827445,
        34359738368,
        3688660304411827445,
        6534114114080170934,
    );
    lemma_product_step(
        68719476736,
        6534114114080170934,
        68719476736,
        6534114114080170934,
        12241777603010464820,
    );
    lemma_product_step(
        137438953472,
        12241777603010464820,
        137438953472,
        12241777603010464820,
        6822456961749002749,
    );
    lemma_product_step(
        274877906944,
        6822456961749002749,
        274877906944,
        6822456961749002749,
        14740284407083446365,
    );
    lemma_product_step(
        549755813888,
        14740284407083446365,
        549755813888,
        14740284407083446365,
        14198376421529404772,
    );
    lemma_product_step(
        1099511627776,
        14198376421529404772,
        1099511627776,
        14198376421529404772,
        16372603252271478917,
    );
    lemma_product_step(
        2199023255552,
        16372603252271478917,
        2199023255552,
        16372603252271478917,
        6094962593300533783,
    );
    lemma_product_step(
        4398046511104,
        6094962593300533783,
        4398046511104,
        6094962593300533783,
        12855798221536971597,
    );
    lemma_product_step(
        8796093022208,
        12855798221536971597,
        8796093022208,
        12855798221536971597,
        4570035464479216815,
    );
    lemma_product_step(
        17592186044416,
        4570035464479216815,
        17592186044416,
        4570035464479216815,
        13312966101283008305,
    );
    lemma_product_step(
        35184372088832,
        13312966101283008305,
        35184372088832,
        13312966101283008305,
        17717521521350689785,
    );
    lemma_product_step(
        70368744177664,
        17717521521350689785,
        70368744177664,
        17717521521350689785,
        2579852125121816621,
    );
    lemma_product_step(
        140737488355328,
        2579852125121816621,
        140737488355328,
        2579852125121816621,
        5647278486080789199,
    );
    lemma_product_step(
        281474976710656,
        5647278486080789199,
        4294967296,
        12275445934081160404,
        3325199773236460081,
    );
    lemma_product_step(
        281479271677952,
        3325199773236460081,
        281479271677952,
        3325199773236460081,
        11594917091220031683,
    );
    lemma_product_step(
        562958543355904,
        11594917091220031683,
        562958543355904,
        11594917091220031683,
        335304168899516603,
    );
    lemma_product_step(
        1125917086711808,
        335304168899516603,
        1125917086711808,
        335304168899516603,
        5878586773437569563,
    );
    lemma_product_step(
        2251834173423616,
        5878586773437569563,
        2251834173423616,
        5878586773437569563,
        14115945277585684606,
    );
    lemma_product_step(
        4503668346847232,
        14115945277585684606,
        281479271677952,
        3325199773236460081,
        14572995961229334459,
    );
    lemma_product_step(
        4785147618525184,
        14572995961229334459,
        4785147618525184,
        14572995961229334459,
        2963425370655317442,
    );
    lemma_product_step(
        9570295237050368,
        2963425370655317442,
        9570295237050368,
        2963425370655317442,
        5071940413218038187,
    );
    lemma_product_step(
        19140590474100736,
        5071940413218038187,
        4785147618525184,
        14572995961229334459,
        10662593646975358326,
    );
    lemma_product_step(
        23925738092625920,
        10662593646975358326,
        23925738092625920,
        10662593646975358326,
        554064525103434636,
    );
    lemma_product_step(
        47851476185251840,
        554064525103434636,
        23925738092625920,
        10662593646975358326,
        995085315851368103,
    );
}

/// The power `(P - 1) / 65537` of seven is not one.
proof fn lemma_cofactor_65537()
    ensures
        field::residue(power::pow(7, 281470681743360)) != 1,
{
    lemma_power_32();
    lemma_product_step(
        4294967296,
        12275445934081160404,
        4294967296,
        12275445934081160404,
        4756475762779100925,
    );
    lemma_product_step(
        8589934592,
        4756475762779100925,
        8589934592,
        4756475762779100925,
        8312008622371998338,
    );
    lemma_product_step(
        17179869184,
        8312008622371998338,
        17179869184,
        8312008622371998338,
        3688660304411827445,
    );
    lemma_product_step(
        34359738368,
        3688660304411827445,
        34359738368,
        3688660304411827445,
        6534114114080170934,
    );
    lemma_product_step(
        68719476736,
        6534114114080170934,
        68719476736,
        6534114114080170934,
        12241777603010464820,
    );
    lemma_product_step(
        137438953472,
        12241777603010464820,
        137438953472,
        12241777603010464820,
        6822456961749002749,
    );
    lemma_product_step(
        274877906944,
        6822456961749002749,
        274877906944,
        6822456961749002749,
        14740284407083446365,
    );
    lemma_product_step(
        549755813888,
        14740284407083446365,
        549755813888,
        14740284407083446365,
        14198376421529404772,
    );
    lemma_product_step(
        1099511627776,
        14198376421529404772,
        4294967296,
        12275445934081160404,
        16017740799520698264,
    );
    lemma_product_step(
        1103806595072,
        16017740799520698264,
        1103806595072,
        16017740799520698264,
        9248286570893515459,
    );
    lemma_product_step(
        2207613190144,
        9248286570893515459,
        2207613190144,
        9248286570893515459,
        7174977898503296236,
    );
    lemma_product_step(
        4415226380288,
        7174977898503296236,
        4415226380288,
        7174977898503296236,
        10464587352546063686,
    );
    lemma_product_step(
        8830452760576,
        10464587352546063686,
        8830452760576,
        10464587352546063686,
        9227023897036962625,
    );
    lemma_product_step(
        17660905521152,
        9227023897036962625,
        1103806595072,
        16017740799520698264,
        10998591838499612919,
    );
    lemma_product_step(
        18764712116224,
        10998591838499612919,
        18764712116224,
        10998591838499612919,
        6253090824202694801,
    );
    lemma_product_step(
        37529424232448,
        6253090824202694801,
        37529424232448,
        6253090824202694801,
        1396320822894551853,
    );
    lemma_product_step(
        75058848464896,
        1396320822894551853,
        18764712116224,
        10998591838499612919,
        144820208228696286,
    );
    lemma_product_step(
        93823560581120,
        144820208228696286,
        93823560581120,
        144820208228696286,
        3684268560309858177,
    );
    lemma_product_step(
        187647121162240,
        3684268560309858177,
        93823560581120,
        144820208228696286,
        8478886009461009681,
    );
}

/// Seven to the order of the group is one.
proof fn lemma_full_power()
    ensures
        field::residue(power::pow(7, group_order())) == 1,
{
    field::lemma_generator_half();
    let h: nat = 0x7FFF_FFFF_8000_0000;
    lemma_product_step(h, P - 1, h, P - 1, 1);
}

/// A power of a power of seven that is one is one.
proof fn lemma_power_of_one(d: nat, k: nat)
    requires
        field::residue(power::pow(7, d)) == 1,
    ensures
        field::residue(power::pow(7, d * k)) == 1,
    decreases k,
{
    if k == 0 {
        lemma_mul_basics(d as int);
        power::lemma_pow0(7);
        lemma_small_mod(1, P as nat);
    } else {
        let j = (k - 1) as nat;
        lemma_power_of_one(d, j);
        lemma_product_step(d, 1, d * j, 1, 1);
        assert(d + d * j == d * k) by (nonlinear_arith)
            requires
                k == j + 1,
        ;
    }
}

/// Exponents at which powers of seven are one: with two of them, the remainder
/// of one by the other.
proof fn lemma_remainder(a: nat, b: nat)
    requires
        b > 0,
        field::residue(power::pow(7, a)) == 1,
        field::residue(power::pow(7, b)) == 1,
    ensures
        field::residue(power::pow(7, a % b)) == 1,
{
    let q = a / b;
    let r = a % b;
    lemma_fundamental_div_mod(a as int, b as int);
    lemma_power_of_one(b, q);
    let x = field::residue(power::pow(7, r));
    lemma_mod_bound(power::pow(7, r), P as int);
    lemma_small_mod(x as nat, P as nat);
    lemma_product_step(b * q, 1, r, x, x);
}

/// With two such exponents, some common divisor of them is one too.
proof fn lemma_common(a: nat, b: nat) -> (g: nat)
    requires
        a > 0,
        field::residue(power::pow(7, a)) == 1,
        field::residue(power::pow(7, b)) == 1,
    ensures
        g > 0,
        a % g == 0,
        b % g == 0,
        field::residue(power::pow(7, g)) == 1,
    decreases b,
{
    if b == 0 {
        lemma_mod_self_0(a as int);
        lemma_small_mod(0, a);
        a
    } else {
        lemma_remainder(a, b);
        lemma_mod_bound(a as int, b as int);
        let g = lemma_common(b, a % b);
        // a == b * (a / b) + a % b
        lemma_fundamental_div_mod(a as int, b as int);
        lemma_multiple_sum((b * (a / b)) as int, (a % b) as int, g as int);
        lemma_multiple_product(b as int, (a / b) as int, g as int);
        lemma_multiple_sum((b * (a / b)) as int, (a % b) as int, g as int);
        g
    }
}

proof fn lemma_multiple_product(x: int, y: int, g: int)
    requires
        g > 0,
        x % g == 0,
    ensures
        (x * y) % g == 0,
{
    lemma_mul_mod_noop_left(x, y, g);
    lemma_mul_basics(y);
    lemma_small_mod(0, g as nat);
}

proof fn lemma_multiple_sum(x: int, y: int, g: int)
    requires
        g > 0,
    ensures
        x % g == 0 && y % g == 0 ==> (x + y) % g == 0 && (x - y) % g == 0,
{
    if x % g == 0 && y % g == 0 {
        lemma_add_mod_noop(x, y, g);
        lemma_sub_mod_noop(x, y, g);
        lemma_small_mod(0, g as nat);
    }
}

/// A common divisor of two numbers as a combination of them.
proof fn lemma_bezout(a: nat, b: nat) -> (r: (int, int, int))
    requires
        a > 0,
    ensures
        r.0 > 0,
        a as int % r.0 == 0,
        b as int % r.0 == 0,
        r.0 == r.1 * a + r.2 * b,
    decreases b,
{
    if b == 0 {
        lemma_mod_self_0(a as int);
        lemma_small_mod(0, a);
        assert(1 * a + 0 * b == a);
        (a as int, 1, 0)
    } else {
        lemma_mod_bound(a as int, b as int);
        let (g, x, y) = lemma_bezout(b, a % b);
        let q = (a / b) as int;
        let m = (a % b) as int;
        lemma_fundamental_div_mod(a as int, b as int);
        lemma_multiple_product(b as int, q, g);
        lemma_multiple_sum(b * q, m, g);
        // g == x * b + y * (a - b * q)
        assert(x * b + y * m == y * a + (x - q * y) * b) by (nonlinear_arith)
            requires
                a == b * q + m,
        ;
        (g, y, x - q * y)
    }
}

/// The only divisors of `q` are one and `q`.
spec fn indivisible(q: int) -> bool {
    forall|g: int| 1 < g < q ==> #[trigger] (q % g) != 0
}

/// A divisor of `q * m` that `q` does not divide divides `m`.
proof fn lemma_cancel(k: nat, q: nat, m: nat)
    requires
        k > 0,
        q > 1,
        indivisible(q as int),
        (q * m) as int % (k as int) == 0,
        k as int % (q as int) != 0,
    ensures
        m as int % (k as int) == 0,
{
    let (g, x, y) = lemma_bezout(k, q);
    if g > q {
        lemma_small_mod(q, g as nat);
    }
    if 1 < g < q {
        assert(q as int % g != 0);
    }
    assert(g == 1);
    // m == (x * m) * k + y * (q * m)
    let mi = m as int;
    assert(mi == (x * mi) * k + y * (q * m)) by (nonlinear_arith)
        requires
            1 == x * k + y * q,
            mi == m,
    ;
    lemma_mod_multiples_basic(x * mi, k as int);
    lemma_mul_is_commutative(y, (q * m) as int);
    lemma_multiple_product((q * m) as int, y, k as int);
    lemma_multiple_sum((x * mi) * k, y * (q * m), k as int);
}

/// No number from 2 to 256 divides 65537.
proof fn lemma_no_small_divisor(i: u32)
    by (bit_vector)
    requires
        2 <= i <= 256,
    ensures
        65537u32 % i != 0,
{
}

/// A number without small divisors has none but itself.
proof fn lemma_indivisible_fermat()
    ensures
        indivisible(65537),
{
    assert forall|g: int| 1 < g < 65537 implies #[trigger] (65537int % g) != 0 by {
        if 65537int % g == 0 {
            let h = 65537int / g;
            lemma_fundamental_div_mod(65537, g);
            assert(1 < h < 65537 && h * g == 65537) by (nonlinear_arith)
                requires
                    65537 == g * h,
                    1 < g < 65537,
            ;
            assert(g <= 256 || h <= 256) by (nonlinear_arith)
                requires
                    h * g == 65537,
                    1 < g < 65537,
                    1 < h < 65537,
            ;
            if g <= 256 {
                lemma_no_small_divisor(g as u32);
            } else {
                lemma_no_small_divisor(h as u32);
                lemma_mod_multiples_basic(g, h);
                lemma_mul_is_commutative(g, h);
            }
        }
    }
}

proof fn lemma_indivisible_small()
    ensures
        indivisible(2),
        indivisible(3),
        indivisible(5),
        indivisible(17),
        indivisible(257),
{
    assert forall|g: int| 1 < g < 5 implies #[trigger] (5int % g) != 0 by {
        assert(g == 2 || g == 3 || g == 4);
    }
    assert forall|g: int| 1 < g < 3 implies #[trigger] (3int % g) != 0 by {
        assert(g == 2);
    }
    assert forall|g: int| 1 < g < 17 implies #[trigger] (17int % g) != 0 by {
        lemma_no_divisor_17(g as u32);
    }
    assert forall|g: int| 1 < g < 257 implies #[trigger] (257int % g) != 0 by {
        lemma_no_divisor_257(g as u32);
    }
}

proof fn lemma_no_divisor_17(i: u32)
    by (bit_vector)
    requires
        2 <= i <= 16,
    ensures
        17u32 % i != 0,
{
}

proof fn lemma_no_divisor_257(i: u32)
    by (bit_vector)
    requires
        2 <= i <= 256,
    ensures
        257u32 % i != 0,
{
}

/// An odd divisor of `2^j * m` divides `m`.
proof fn lemma_cancel_twos(k: nat, j: nat, m: nat)
    requires
        k > 0,
        k as int % 2 != 0,
        (vstd::arithmetic::power2::pow2(j) * m) as int % (k as int) == 0,
    ensures
        m as int % (k as int) == 0,
    decreases j,
{
    if j == 0 {
        vstd::arithmetic::power2::lemma2_to64();
        lemma_mul_basics(m as int);
    } else {
        let i = (j - 1) as nat;
        vstd::arithmetic::power2::lemma_pow2_unfold(j);
        let w = vstd::arithmetic::power2::pow2(i);
        lemma_mul_is_associative(2, w as int, m as int);
        lemma_indivisible_small();
        lemma_cancel(k, 2, w * m);
        lemma_cancel_twos(k, i, m);
    }
}

/// A divisor of the order other than one is divisible by a prime factor of it.
proof fn lemma_prime_factor(k: nat)
    requires
        k > 1,
        group_order() as int % (k as int) == 0,
    ensures
        k as int % 2 == 0 || k as int % 3 == 0 || k as int % 5 == 0 || k as int % 17 == 0 || k as int
            % 257 == 0 || k as int % 65537 == 0,
{
    if k as int % 2 != 0 && k as int % 3 != 0 && k as int % 5 != 0 && k as int % 17 != 0 && k as int
        % 257 != 0 && k as int % 65537 != 0 {
        vstd::arithmetic::power2::lemma2_to64();
        assert(group_order() == vstd::arithmetic::power2::pow2(32) * 0xFFFF_FFFF);
        lemma_cancel_twos(k, 32, 0xFFFF_FFFF);
        lemma_indivisible_small();
        lemma_indivisible_fermat();
        assert(0xFFFF_FFFF == 3nat * 0x5555_5555);
        lemma_cancel(k, 3, 0x5555_5555);
        assert(0x5555_5555 == 5nat * 0x1111_1111);
        lemma_cancel(k, 5, 0x1111_1111);
        assert(0x1111_1111 == 17nat * 0x101_0101);
        lemma_cancel(k, 17, 0x101_0101);
        assert(0x101_0101 == 257nat * 0x1_0001);
        lemma_cancel(k, 257, 0x1_0001);
        assert(0x1_0001 == 65537nat * 1);
        lemma_cancel(k, 65537, 1);
        lemma_small_mod(1, k);
    }
}

/// If seven to the power of a divisor of `(P - 1) / q` is one, so is seven to
/// that quotient.
proof fn lemma_lift(g: nat, k: nat, q: nat)
    requires
        g > 0,
        q > 1,
        g * k == group_order(),
        k as int % (q as int) == 0,
        field::residue(power::pow(7, g)) == 1,
    ensures
        field::residue(power::pow(7, group_order() / q)) == 1,
{
    let j = k / q;
    lemma_fundamental_div_mod(k as int, q as int);
    assert(group_order() == q * (g * j)) by (nonlinear_arith)
        requires
            g * k == group_order(),
            k == q * j,
    ;
    lemma_mul_is_commutative(q as int, (g * j) as int);
    lemma_div_by_multiple((g * j) as int, q as int);
    lemma_power_of_one(g, j);
}

/// No smaller power of seven is one.
proof fn lemma_order(d: nat)
    requires
        0 < d < group_order(),
    ensures
        field::residue(power::pow(7, d)) != 1,
{
    if field::residue(power::pow(7, d)) == 1 {
        lemma_full_power();
        let g = lemma_common(d, group_order());
        if g > d {
            lemma_small_mod(d, g);
        }
        let k = group_order() / g;
        lemma_fundamental_div_mod(group_order() as int, g as int);
        assert(k > 1) by (nonlinear_arith)
            requires
                group_order() == g * k,
                g < group_order(),
                g > 0,
        ;
        lemma_mod_multiples_basic(g as int, k as int);
        lemma_prime_factor(k);
        if k as int % 2 == 0 {
            lemma_lift(g, k, 2);
            field::lemma_generator_half();
        } else if k as int % 3 == 0 {
            lemma_lift(g, k, 3);
            lemma_cofactor_3();
        } else if k as int % 5 == 0 {
            lemma_lift(g, k, 5);
            lemma_cofactor_5();
        } else if k as int % 17 == 0 {
            lemma_lift(g, k, 17);
            lemma_cofactor_17();
        } else if k as int % 257 == 0 {
            lemma_lift(g, k, 257);
            lemma_cofactor_257();
        } else {
            lemma_lift(g, k, 65537);
            lemma_cofactor_65537();
        }
    }
}

/// Different exponents below the order give different powers of seven.
proof fn lemma_distinct(i: nat, j: nat)
    requires
        i < j < group_order(),
    ensures
        field::residue(power::pow(7, i)) != field::residue(power::pow(7, j)),
{
    let x = field::residue(power::pow(7, i));
    if x == field::residue(power::pow(7, j)) {
        let c = (group_order() - i) as nat;
        let y = field::residue(power::pow(7, c));
        lemma_full_power();
        lemma_product_step(i, x, c, y, field::residue(x * y));
        assert(i + c == group_order());
        lemma_product_step(j, x, c, y, field::residue(x * y));
        // 7^(j + c) == 7^order * 7^(j - i)
        let d = (j - i) as nat;
        let z = field::residue(power::pow(7, d));
        lemma_mod_bound(power::pow(7, d), P as int);
        lemma_small_mod(z as nat, P as nat);
        lemma_product_step(group_order(), 1, d, z, z);
        assert(group_order() + d == j + c);
        lemma_order(d);
    }
}

/// Every power of seven is a residue other than zero.
proof fn lemma_power_nonzero(i: nat)
    requires
        i < group_order(),
    ensures
        1 <= field::residue(power::pow(7, i)) < P,
{
    let x = field::residue(power::pow(7, i));
    lemma_mod_bound(power::pow(7, i), P as int);
    if x == 0 {
        let c = (group_order() - i) as nat;
        let y = field::residue(power::pow(7, c));
        lemma_full_power();
        lemma_mul_basics(y);
        lemma_small_mod(0, P as nat);
        lemma_product_step(i, 0, c, y, 0);
    }
}

/// Every residue other than zero is a power of seven.
proof fn lemma_generates(a: int) -> (k: nat)
    requires
        1 <= a < P,
    ensures
        field::residue(power::pow(7, k)) == a,
{
    let f = |i: int| field::residue(power::pow(7, i as nat));
    let exponents = set_int_range(0, group_order() as int);
    let units = set_int_range(1, P as int);
    lemma_int_range(0, group_order() as int);
    lemma_int_range(1, P as int);
    assert(vstd::relations::injective_on(f, exponents)) by {
        assert forall|i: int, j: int|
            exponents.contains(i) && exponents.contains(j) && #[trigger] f(i) == #[trigger] f(
                j,
            ) implies i == j by {
            if i < j {
                lemma_distinct(i as nat, j as nat);
            } else if j < i {
                lemma_distinct(j as nat, i as nat);
            }
        }
    }
    let image = exponents.map(f);
    lemma_map_size(exponents, image, f);
    assert forall|x: int| image.contains(x) implies units.contains(x) by {
        let i = choose|i: int| exponents.contains(i) && f(i) == x;
        lemma_power_nonzero(i as nat);
    }
    lemma_subset_equality(image, units);
    assert(units.contains(a));
    assert(image.contains(a));
    let i = choose|i: int| exponents.contains(i) && f(i) == a;
    i as nat
}

/// The power `P - 1` of every number that `P` does not divide is one modulo `P`.
pub proof fn law_fermat(a: int)
    requires
        field::residue(a) != 0,
    ensures
        field::residue(power::pow(a, (P - 1) as nat)) == 1,
{
    let r = field::residue(a);
    lemma_mod_bound(a, P as int);
    lemma_mod_twice(a, P as int);
    let k = lemma_generates(r);
    field::lemma_pow_residue(a, power::pow(7, k), group_order());
    power::lemma_pow_multiplies(7, k, group_order());
    lemma_full_power();
    lemma_power_of_one(group_order(), k);
    lemma_mul_is_commutative(k as int, group_order() as int);
}

/// The inverse is one: a number times its power `P - 2` is one modulo `P`.
pub proof fn law_inverse(a: int)
    requires
        field::residue(a) != 0,
    ensures
        field::residue(a * field::residue(power::pow(a, (P - 2) as nat))) == 1,
{
    law_fermat(a);
    let x = power::pow(a, (P - 2) as nat);
    power::lemma_pow_adds(a, 1, (P - 2) as nat);
    power::lemma_pow1(a);
    lemma_mod_twice(x, P as int);
    field::lemma_product_residue(a, a, field::residue(x), x);
}

/// The root that seven gives for a divisor `n` of `P - 1` is primitive: its
/// power `n` is one, and no smaller one is.
pub proof fn law_primitive_root(n: nat, d: nat)
    requires
        n > 0,
        (P - 1) % (n as int) == 0,
        0 < d < n,
    ensures
        ({
            let root = field::residue(power::pow(7, ((P - 1) / n as int) as nat));
            &&& field::residue(power::pow(root, n)) == 1
            &&& field::residue(power::pow(root, d)) != 1
        }),
{
    let e = (group_order() as int / n as int) as nat;
    let root = field::residue(power::pow(7, e));
    lemma_fundamental_div_mod(group_order() as int, n as int);
    lemma_mul_is_commutative(n as int, e as int);
    assert(e > 0) by (nonlinear_arith)
        requires
            group_order() == e * n,
            group_order() > 0,
    ;
    lemma_mod_twice(power::pow(7, e), P as int);
    field::lemma_pow_residue(root, power::pow(7, e), n);
    field::lemma_pow_residue(root, power::pow(7, e), d);
    power::lemma_pow_multiplies(7, e, n);
    power::lemma_pow_multiplies(7, e, d);
    lemma_full_power();
    assert(0 < e * d < group_order()) by (nonlinear_arith)
        requires
            group_order() == e * n,
            0 < d < n,
            e > 0,
    ;
    lemma_order(e * d);
}

} // verus!
